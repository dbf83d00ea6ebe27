//! Lightweight batching: equal-length token sequences laid out row by row, and
//! shuffled minibatches of indices.

use crate::kv_task::KvExample;
use crate::random;
use crate::random::{seeded, shuffle};
use crate::span::Span;
use crate::tokenizer::TokenId;
use burn::tensor::TensorData;
use rand::rngs::StdRng;
use vstd::prelude::*;
use vstd::slice::{slice_subrange, slice_to_vec};

verus! {

/// `burn`'s host-side tensor contents, an opaque value.
#[verifier::external_type_specification]
#[verifier::external_body]
pub struct ExTensorData(TensorData);

/// The integers that tensor contents hold, row by row.
pub uninterp spec fn data_values(data: TensorData) -> Seq<i64>;

/// The extent of tensor contents in each dimension.
pub uninterp spec fn data_shape(data: TensorData) -> Seq<usize>;

/// `TensorData::new` on a vector of integers and a shape: the contents hold these
/// integers, in this order, in this shape. A shape with another number of
/// elements than the vector has would panic.
#[verifier::external_body]
fn new_tensor_data(values: Vec<i64>, rows: usize, columns: usize) -> (data: TensorData)
    requires
        values@.len() == rows * columns,
    ensures
        data_values(data) == values@,
        data_shape(data) == seq![rows, columns],
{
    TensorData::new(values, [rows, columns])
}

/// A batch of equal-length token sequences: `batch` rows of `seq_len` integers,
/// one row after another.
pub struct TokenBatch {
    pub data: Vec<i64>,
    pub batch: usize,
    pub seq_len: usize,
}

impl TokenBatch {
    pub open spec fn wf(self) -> bool {
        self.data@.len() == self.batch * self.seq_len
    }

    /// The integer in row `row`, column `column`.
    pub open spec fn at(self, row: int, column: int) -> i64 {
        self.data@[row * self.seq_len + column]
    }

    fn empty(seq_len: usize) -> (r: TokenBatch)
        ensures
            r.wf(),
            r.batch == 0,
            r.seq_len == seq_len,
    {
        TokenBatch { data: Vec::new(), batch: 0, seq_len }
    }

    /// Adds one row.
    fn push_row(&mut self, row: Vec<i64>)
        requires
            old(self).wf(),
            row@.len() == old(self).seq_len,
            old(self).batch < usize::MAX,
        ensures
            final(self).wf(),
            final(self).batch == old(self).batch + 1,
            final(self).seq_len == old(self).seq_len,
            forall|i: int, j: int|
                0 <= i < old(self).batch && 0 <= j < old(self).seq_len ==> #[trigger] final(self).at(
                    i,
                    j,
                ) == old(self).at(i, j),
            forall|j: int|
                0 <= j < old(self).seq_len ==> #[trigger] final(self).at(
                    old(self).batch as int,
                    j,
                ) == row@[j],
    {
        let ghost before = *self;
        let mut row = row;
        self.data.append(&mut row);
        self.batch = self.batch + 1;
        proof {
            let t = self.seq_len as int;
            let b = before.batch as int;
            assert((b + 1) * t == b * t + t) by (nonlinear_arith);
            assert forall|i: int, j: int| 0 <= i < b && 0 <= j < t implies #[trigger] self.at(
                i,
                j,
            ) == before.at(i, j) by {
                lemma_row_major(i, j, b, t);
            }
        }
    }

    /// Lays out sequences of one length.
    pub fn from_sequences(seqs: &[&[TokenId]]) -> (r: TokenBatch)
        requires
            seqs@.len() > 0,
            forall|i: int| 0 <= i < seqs@.len() ==> (#[trigger] seqs@[i])@.len() == seqs@[0]@.len(),
        ensures
            r.wf(),
            r.batch == seqs@.len(),
            r.seq_len == seqs@[0]@.len(),
            forall|i: int, j: int|
                0 <= i < r.batch && 0 <= j < r.seq_len ==> #[trigger] r.at(i, j) == seqs@[i]@[j],
    {
        let seq_len: usize = seqs[0].len();
        let mut out: TokenBatch = TokenBatch::empty(seq_len);
        let mut i: usize = 0;
        while i < seqs.len()
            invariant
                i <= seqs.len(),
                out.wf(),
                out.batch == i,
                out.seq_len == seq_len,
                seq_len == seqs@[0]@.len(),
                forall|k: int|
                    0 <= k < seqs@.len() ==> (#[trigger] seqs@[k])@.len() == seqs@[0]@.len(),
                forall|k: int, j: int|
                    0 <= k < i && 0 <= j < seq_len ==> #[trigger] out.at(k, j) == seqs@[k]@[j],
            decreases seqs.len() - i,
        {
            out.push_row(widened(seqs[i]));
            i = i + 1;
        }
        out
    }

    /// Rows and columns.
    pub fn dims(&self) -> (r: [usize; 2])
        ensures
            r@ == seq![self.batch, self.seq_len],
    {
        let r: [usize; 2] = [self.batch, self.seq_len];
        r
    }

    /// Next-token training views: inputs `[batch, seq-1]` and targets
    /// `[batch, seq-1]` (targets are inputs shifted left by one).
    pub fn autoregressive_views(&self) -> (r: (TokenBatch, TokenBatch))
        requires
            self.wf(),
            self.seq_len >= 2,
        ensures
            r.0.wf(),
            r.1.wf(),
            r.0.batch == self.batch,
            r.1.batch == self.batch,
            r.0.seq_len == self.seq_len - 1,
            r.1.seq_len == self.seq_len - 1,
            forall|i: int, j: int|
                0 <= i < self.batch && 0 <= j < self.seq_len - 1 ==> #[trigger] r.0.at(i, j)
                    == self.at(i, j),
            forall|i: int, j: int|
                0 <= i < self.batch && 0 <= j < self.seq_len - 1 ==> #[trigger] r.1.at(i, j)
                    == self.at(i, j + 1),
    {
        let width: usize = self.seq_len - 1;
        let mut inputs: TokenBatch = TokenBatch::empty(width);
        let mut targets: TokenBatch = TokenBatch::empty(width);
        let mut i: usize = 0;
        let mut base: usize = 0;
        while i < self.batch
            invariant
                i <= self.batch,
                self.wf(),
                self.seq_len >= 2,
                width == self.seq_len - 1,
                base == i * self.seq_len,
                inputs.wf(),
                targets.wf(),
                inputs.batch == i,
                targets.batch == i,
                inputs.seq_len == width,
                targets.seq_len == width,
                forall|k: int, j: int|
                    0 <= k < i && 0 <= j < width ==> #[trigger] inputs.at(k, j) == self.at(k, j),
                forall|k: int, j: int|
                    0 <= k < i && 0 <= j < width ==> #[trigger] targets.at(k, j) == self.at(
                        k,
                        j + 1,
                    ),
            decreases self.batch - i,
        {
            proof {
                let t = self.seq_len as int;
                assert((i + 1) * t == i * t + t) by (nonlinear_arith);
                assert((i + 1) * t <= self.batch * t) by (nonlinear_arith)
                    requires
                        i + 1 <= self.batch,
                        t >= 0,
                ;
                assert(base + t <= self.data.len());
            }
            let row: &[i64] = slice_subrange(self.data.as_slice(), base, base + self.seq_len);
            inputs.push_row(slice_to_vec(slice_subrange(row, 0, width)));
            targets.push_row(slice_to_vec(slice_subrange(row, 1, self.seq_len)));
            base = base + self.seq_len;
            i = i + 1;
        }
        (inputs, targets)
    }

    /// The batch as `burn` tensor contents of shape `[batch, seq]`.
    pub fn into_tensor_data(self) -> (r: TensorData)
        requires
            self.wf(),
        ensures
            data_values(r) == self.data@,
            data_shape(r) == seq![self.batch, self.seq_len],
    {
        new_tensor_data(self.data, self.batch, self.seq_len)
    }
}

/// Row-major positions of earlier rows come before the start of row `rows`.
proof fn lemma_row_major(i: int, j: int, rows: int, t: int)
    requires
        0 <= i < rows,
        0 <= j < t,
    ensures
        0 <= i * t + j < rows * t,
{
    assert(0 <= i * t + j < rows * t) by (nonlinear_arith)
        requires
            0 <= i < rows,
            0 <= j < t,
    ;
}

/// Token ids as the integers that tensors hold.
pub fn widened(tokens: &[TokenId]) -> (r: Vec<i64>)
    ensures
        r@ == tokens@.map_values(|t: TokenId| t as i64),
{
    let mut out: Vec<i64> = Vec::new();
    let mut i: usize = 0;
    while i < tokens.len()
        invariant
            i <= tokens.len(),
            out@ =~= tokens@.take(i as int).map_values(|t: TokenId| t as i64),
        decreases tokens.len() - i,
    {
        out.push(tokens[i] as i64);
        i = i + 1;
    }
    out
}

/// The batch of the examples at the given indices.
pub fn batch_tokens(examples: &[KvExample], indices: &[usize]) -> (r: TokenBatch)
    requires
        indices@.len() > 0,
        forall|i: int| 0 <= i < indices@.len() ==> #[trigger] indices@[i] < examples@.len(),
        forall|i: int|
            0 <= i < indices@.len() ==> examples@[#[trigger] indices@[i] as int].tokens@.len()
                == examples@[indices@[0] as int].tokens@.len(),
    ensures
        r.wf(),
        r.batch == indices@.len(),
        r.seq_len == examples@[indices@[0] as int].tokens@.len(),
        forall|i: int, j: int|
            0 <= i < r.batch && 0 <= j < r.seq_len ==> #[trigger] r.at(i, j)
                == examples@[indices@[i] as int].tokens@[j],
{
    let mut seqs: Vec<&[TokenId]> = Vec::new();
    let mut i: usize = 0;
    while i < indices.len()
        invariant
            i <= indices.len(),
            seqs@.len() == i,
            forall|k: int| 0 <= k < indices@.len() ==> #[trigger] indices@[k] < examples@.len(),
            forall|k: int|
                0 <= k < i ==> (#[trigger] seqs@[k])@ == examples@[indices@[k] as int].tokens@,
        decreases indices.len() - i,
    {
        seqs.push(examples[indices[i]].tokens.as_slice());
        i = i + 1;
    }
    TokenBatch::from_sequences(seqs.as_slice())
}

/// One row per span: 1 at the positions that the span holds, 0 elsewhere.
pub fn span_masks(spans: &[Span], seq_len: usize) -> (r: TokenBatch)
    ensures
        r.wf(),
        r.batch == spans@.len(),
        r.seq_len == seq_len,
        forall|i: int, j: int|
            0 <= i < r.batch && 0 <= j < seq_len ==> #[trigger] r.at(i, j) == (if spans@[i].holds(j) {
                1i64
            } else {
                0i64
            }),
{
    let mut out: TokenBatch = TokenBatch::empty(seq_len);
    let mut i: usize = 0;
    while i < spans.len()
        invariant
            i <= spans.len(),
            out.wf(),
            out.batch == i,
            out.seq_len == seq_len,
            forall|k: int, j: int|
                0 <= k < i && 0 <= j < seq_len ==> #[trigger] out.at(k, j) == (
                if spans@[k].holds(j) {
                    1i64
                } else {
                    0i64
                }),
        decreases spans.len() - i,
    {
        out.push_row(span_mask(spans[i], seq_len));
        i = i + 1;
    }
    out
}

/// 1 at the positions that the span holds, 0 elsewhere.
pub fn span_mask(span: Span, seq_len: usize) -> (r: Vec<i64>)
    ensures
        r@ == Seq::new(
            seq_len as nat,
            |j: int|
                if span.holds(j) {
                    1i64
                } else {
                    0i64
                },
        ),
{
    let mut out: Vec<i64> = Vec::new();
    let mut j: usize = 0;
    while j < seq_len
        invariant
            j <= seq_len,
            out@ =~= Seq::new(
                j as nat,
                |p: int|
                    if span.holds(p) {
                        1i64
                    } else {
                        0i64
                    },
            ),
        decreases seq_len - j,
    {
        if span.contains(j) {
            out.push(1);
        } else {
            out.push(0);
        }
        j = j + 1;
    }
    out
}

/// `indices` lists each of `0..n` once, where `n` is its length.
pub open spec fn lists_each_once(indices: Seq<usize>) -> bool {
    &&& indices.no_duplicates()
    &&& forall|i: int| 0 <= i < indices.len() ==> #[trigger] indices[i] < indices.len()
}

/// Yields shuffled minibatches of indices, reshuffling each epoch.
pub struct BatchIndexer {
    indices: Vec<usize>,
    batch_size: usize,
    cursor: usize,
    rng: StdRng,
}

impl BatchIndexer {
    /// The indices in this epoch's order.
    pub closed spec fn order(&self) -> Seq<usize> {
        self.indices@
    }

    pub closed spec fn size(&self) -> nat {
        self.batch_size as nat
    }

    /// How many indices of this epoch were handed out.
    pub closed spec fn handed_out(&self) -> nat {
        self.cursor as nat
    }

    /// How many batches of this epoch were handed out.
    pub open spec fn calls(&self) -> nat {
        self.handed_out() / self.size()
    }

    pub closed spec fn state(&self) -> Seq<u32> {
        random::generator_state(self.rng)
    }

    /// The order lists every index once, and whole batches of it were handed out.
    pub open spec fn wf(&self) -> bool {
        &&& lists_each_once(self.order())
        &&& self.size() > 0
        &&& self.handed_out() == self.calls() * self.size()
        &&& self.handed_out() <= self.order().len()
        &&& self.handed_out() % self.size() == 0
    }

    pub fn new(n: usize, batch_size: usize, seed: u64) -> (r: BatchIndexer)
        requires
            batch_size > 0,
            n > 0,
        ensures
            r.wf(),
            r.size() == batch_size,
            r.handed_out() == 0,
            r.calls() == 0,
            ({
                let draw = random::shuffle_draw(random::seeded_state(seed), n as nat);
                &&& r.order() == random::permuted(Seq::new(n as nat, |i: int| i as usize), draw.0)
                &&& r.order().len() == n
                &&& r.state() == draw.1
            }),
    {
        let mut rng: StdRng = seeded(seed);
        let mut indices: Vec<usize> = Vec::new();
        let mut i: usize = 0;
        while i < n
            invariant
                i <= n,
                indices@ =~= Seq::new(i as nat, |k: int| k as usize),
            decreases n - i,
        {
            indices.push(i);
            i = i + 1;
        }
        let ghost before = indices@;
        shuffle(&mut indices, &mut rng);
        proof {
            random::permuted_keeps_distinct(
                before,
                random::shuffle_draw(random::seeded_state(seed), n as nat).0,
            );
            lemma_one_more_batch(0, batch_size as int);
        }
        BatchIndexer { indices, batch_size, cursor: 0, rng }
    }

    /// Next minibatch of indices; reshuffles and wraps at epoch end
    /// (drops the ragged tail batch).
    pub fn next_batch(&mut self) -> (r: &[usize])
        requires
            old(self).wf(),
            old(self).size() <= old(self).order().len(),
        ensures
            final(self).wf(),
            final(self).size() == old(self).size(),
            old(self).handed_out() + old(self).size() <= old(self).order().len() ==> {
                &&& final(self).order() == old(self).order()
                &&& final(self).state() == old(self).state()
                &&& final(self).handed_out() == old(self).handed_out() + old(self).size()
                &&& final(self).calls() == old(self).calls() + 1
            },
            old(self).handed_out() + old(self).size() > old(self).order().len() ==> {
                let draw = random::shuffle_draw(old(self).state(), old(self).order().len());
                &&& final(self).order() == random::permuted(old(self).order(), draw.0)
                &&& final(self).state() == draw.1
                &&& final(self).handed_out() == old(self).size()
                &&& final(self).calls() == 1
            },
            final(self).order().len() == old(self).order().len(),
            r@ == final(self).order().subrange(
                final(self).handed_out() - final(self).size(),
                final(self).handed_out() as int,
            ),
            r@ == epoch_batches(
                final(self).order(),
                final(self).size(),
                final(self).calls(),
            ).last(),
    {
        let ghost calls: int = if old(self).handed_out() + old(self).size()
            <= old(self).order().len() {
            old(self).calls() as int
        } else {
            0
        };
        if self.batch_size > self.indices.len() - self.cursor {
            let ghost before = self.indices@;
            let ghost draw = random::shuffle_draw(
                random::generator_state(self.rng),
                self.indices@.len(),
            );
            shuffle(&mut self.indices, &mut self.rng);
            self.cursor = 0;
            proof {
                random::permuted_keeps_distinct(before, draw.0);
            }
        }
        let start: usize = self.cursor;
        self.cursor = start + self.batch_size;
        proof {
            lemma_one_more_batch(calls, self.batch_size as int);
        }
        slice_subrange(self.indices.as_slice(), start, start + self.batch_size)
    }
}

proof fn lemma_one_more_batch(calls: int, size: int)
    requires
        0 <= calls,
        0 < size,
    ensures
        (calls * size + size) / size == calls + 1,
        (calls * size + size) % size == 0,
        (calls + 1) * size == calls * size + size,
        0 * size == 0,
        0int / size == 0,
        0int % size == 0,
{
    assert((calls + 1) * size == calls * size + size) by (nonlinear_arith);
    vstd::arithmetic::div_mod::lemma_div_multiples_vanish(calls + 1, size);
    vstd::arithmetic::div_mod::lemma_mod_multiples_basic(calls + 1, size);
    vstd::arithmetic::div_mod::lemma_div_multiples_vanish(0, size);
    vstd::arithmetic::div_mod::lemma_mod_multiples_basic(0, size);
}

/// The first `calls` batches of an epoch.
pub open spec fn epoch_batches(order: Seq<usize>, size: nat, calls: nat) -> Seq<Seq<usize>> {
    Seq::new(calls, |k: int| order.subrange(k * size, (k + 1) * size))
}

/// Within one epoch no index is handed out twice, over all calls: the batches so
/// far, one after another, are the front of the epoch's order, and no index occurs
/// in it twice. So no batch repeats an index, and no two batches share one.
pub proof fn epoch_hands_out_each_index_at_most_once(order: Seq<usize>, size: nat, calls: nat)
    requires
        lists_each_once(order),
        calls * size <= order.len(),
    ensures
        epoch_batches(order, size, calls).flatten_alt() == order.take((calls * size) as int),
        epoch_batches(order, size, calls).flatten_alt().no_duplicates(),
        forall|a: int|
            0 <= a < calls ==> (#[trigger] epoch_batches(order, size, calls)[a]).len() == size
                && epoch_batches(order, size, calls)[a].no_duplicates(),
        forall|a: int, b: int|
            0 <= a < b < calls ==> (#[trigger] epoch_batches(order, size, calls)[a]).disjoint(
                #[trigger] epoch_batches(order, size, calls)[b],
            ),
{
    lemma_batches_are_the_front(order, size, calls);
    let batches = epoch_batches(order, size, calls);
    assert forall|a: int| 0 <= a < calls implies 0 <= a * size && (a + 1) * size == a * size + size
        && (a + 1) * size <= order.len() && (#[trigger] batches[a]) == order.subrange(
        a * size,
        a * size + size,
    ) by {
        assert(0 <= a * size && (a + 1) * size == a * size + size && (a + 1) * size <= calls
            * size) by (nonlinear_arith)
            requires
                0 <= a < calls,
        ;
    }
    assert forall|a: int, b: int| 0 <= a < b < calls implies (#[trigger] batches[a]).disjoint(
        #[trigger] batches[b],
    ) by {
        assert(a * size + size <= b * size) by (nonlinear_arith)
            requires
                a + 1 <= b,
        ;
        assert forall|i: int, j: int|
            0 <= i < batches[a].len() && 0 <= j < batches[b].len() implies batches[a][i]
            != batches[b][j] by {
            assert(batches[a][i] == order[a * size + i]);
            assert(batches[b][j] == order[b * size + j]);
        }
    }
}

proof fn lemma_batches_are_the_front(order: Seq<usize>, size: nat, calls: nat)
    requires
        calls * size <= order.len(),
    ensures
        epoch_batches(order, size, calls).flatten_alt() == order.take((calls * size) as int),
    decreases calls,
{
    let batches = epoch_batches(order, size, calls);
    if calls > 0 {
        let before = (calls - 1) as nat;
        assert(calls * size == before * size + size) by (nonlinear_arith)
            requires
                calls == before + 1,
        ;
        lemma_batches_are_the_front(order, size, before);
        assert(batches.drop_last() =~= epoch_batches(order, size, before));
    } else {
        assert(calls * size == 0) by (nonlinear_arith)
            requires
                calls == 0,
        ;
    }
}

/// Rows stand one after another: the integer in row `row`, column `column` is the
/// one at place `row * seq_len + column`, and every place belongs to one row and
/// column.
pub proof fn rows_stand_one_after_another(batch: TokenBatch, row: int, column: int, place: int)
    requires
        batch.wf(),
    ensures
        batch.at(row, column) == batch.data@[row * batch.seq_len + column],
        batch.data@.len() == batch.batch * batch.seq_len,
        0 <= place < batch.data@.len() ==> 0 <= place / (batch.seq_len as int) < batch.batch
            && batch.data@[place] == batch.at(
            place / (batch.seq_len as int),
            place % (batch.seq_len as int),
        ),
{
    if 0 <= place < batch.data@.len() {
        let t = batch.seq_len as int;
        let b = batch.batch as int;
        assert(t > 0) by (nonlinear_arith)
            requires
                0 <= place < b * t,
                0 <= t,
        ;
        vstd::arithmetic::div_mod::lemma_fundamental_div_mod(place, t);
        assert(0 <= place / t < b) by (nonlinear_arith)
            requires
                0 <= place < b * t,
                t > 0,
                place == t * (place / t) + place % t,
                0 <= place % t < t,
        ;
        assert(t * (place / t) == (place / t) * t) by (nonlinear_arith);
    }
}

/// Batch `k` of an epoch holds, in order, the indices from place `k * size` of the
/// epoch's order on, so each call goes on where the one before it stopped.
pub proof fn batches_follow_the_order(order: Seq<usize>, size: nat, calls: nat, k: int, i: int)
    requires
        calls * size <= order.len(),
        0 <= k < calls,
        0 <= i < size,
    ensures
        epoch_batches(order, size, calls).len() == calls,
        epoch_batches(order, size, calls)[k].len() == size,
        epoch_batches(order, size, calls)[k][i] == order[k * size + i],
{
    assert(0 <= k * size && (k + 1) * size == k * size + size && (k + 1) * size <= calls * size)
        by (nonlinear_arith)
        requires
            0 <= k < calls,
    ;
}

} // verus!

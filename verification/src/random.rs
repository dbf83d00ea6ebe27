//! Seeded randomness, from `rand`'s `StdRng`.
//!
//! A `StdRng` is a ChaCha generator: everything it gives out is computed from
//! its state, and its state from the seed. The state is opaque here. What the
//! calls below hand out and leave behind is named as a function of the state
//! before the call, so that equal seeds provably lead to equal data.

use rand::rngs::StdRng;
use rand::seq::SliceRandom;
use rand::{Rng, SeedableRng};
use vstd::prelude::*;

verus! {

/// `rand`'s standard generator, an opaque value.
#[verifier::external_type_specification]
#[verifier::external_body]
pub struct ExStdRng(StdRng);

/// What a generator holds: key, counter and the unused part of its output block.
pub uninterp spec fn generator_state(rng: StdRng) -> Seq<u32>;

/// The state that `StdRng::seed_from_u64` makes of a seed.
pub uninterp spec fn seeded_state(seed: u64) -> Seq<u32>;

/// What `random_range(low..high)` gives out, and the state that it leaves.
pub uninterp spec fn half_open_draw(state: Seq<u32>, low: usize, high: usize) -> (usize, Seq<u32>);

/// What `random_range(low..=high)` gives out, and the state that it leaves.
pub uninterp spec fn inclusive_draw(state: Seq<u32>, low: usize, high: usize) -> (usize, Seq<u32>);

/// For a slice of `len` items, the old place of the item that `shuffle` puts at
/// each place, and the state that it leaves.
pub uninterp spec fn shuffle_draw(state: Seq<u32>, len: nat) -> (Seq<int>, Seq<u32>);

/// `order` lists each of `0..len` once.
pub open spec fn is_permutation(order: Seq<int>, len: nat) -> bool {
    &&& order.len() == len
    &&& forall|i: int| 0 <= i < len ==> 0 <= #[trigger] order[i] < len
    &&& order.no_duplicates()
}

/// The items taken in the given order.
pub open spec fn permuted<T>(items: Seq<T>, order: Seq<int>) -> Seq<T> {
    Seq::new(order.len(), |i: int| items[order[i]])
}

/// `StdRng::seed_from_u64`: the generator's state is a function of the seed.
#[verifier::external_body]
pub(crate) fn seeded(seed: u64) -> (rng: StdRng)
    ensures
        generator_state(rng) == seeded_state(seed),
{
    StdRng::seed_from_u64(seed)
}

/// A generator seeded with `seed`: equal seeds give generators that draw the same.
pub fn generator(seed: u64) -> (rng: StdRng)
    ensures
        generator_state(rng) == seeded_state(seed),
{
    seeded(seed)
}

/// `Rng::random_range` over a half-open range: the number lies in the range, and
/// it and the state left behind are functions of the state before and the range.
/// An empty range would panic.
#[verifier::external_body]
pub(crate) fn draw_half_open(rng: &mut StdRng, low: usize, high: usize) -> (drawn: usize)
    requires
        low < high,
    ensures
        low <= drawn < high,
        (drawn, generator_state(*final(rng))) == half_open_draw(
            generator_state(*old(rng)),
            low,
            high,
        ),
{
    rng.random_range(low..high)
}

/// `Rng::random_range` over a closed range: the number lies in the range, and it
/// and the state left behind are functions of the state before and the range.
/// An empty range would panic.
#[verifier::external_body]
pub(crate) fn draw_inclusive(rng: &mut StdRng, low: usize, high: usize) -> (drawn: usize)
    requires
        low <= high,
    ensures
        low <= drawn <= high,
        (drawn, generator_state(*final(rng))) == inclusive_draw(
            generator_state(*old(rng)),
            low,
            high,
        ),
{
    rng.random_range(low..=high)
}

/// `SliceRandom::shuffle`: reorders the items in place. The order and the state
/// left behind are functions of the state before and the number of items; what
/// the items are plays no part.
#[verifier::external_body]
pub(crate) fn shuffle<T>(items: &mut Vec<T>, rng: &mut StdRng)
    ensures
        ({
            let draw = shuffle_draw(generator_state(*old(rng)), old(items)@.len());
            &&& is_permutation(draw.0, old(items)@.len())
            &&& final(items)@ == permuted(old(items)@, draw.0)
            &&& generator_state(*final(rng)) == draw.1
        }),
{
    items.shuffle(rng);
}

/// `count` numbers drawn from `low..high` one after another, and the state after
/// them.
pub open spec fn draws(state: Seq<u32>, low: usize, high: usize, count: nat) -> (
    Seq<usize>,
    Seq<u32>,
)
    decreases count,
{
    if count == 0 {
        (Seq::empty(), state)
    } else {
        let before = draws(state, low, high, (count - 1) as nat);
        let draw = half_open_draw(before.1, low, high);
        (before.0.push(draw.0), draw.1)
    }
}

/// Draws `count` numbers from `low..high`.
pub fn draw_many(rng: &mut StdRng, low: usize, high: usize, count: usize) -> (r: Vec<usize>)
    requires
        count > 0 ==> low < high,
    ensures
        (r@, generator_state(*final(rng))) == draws(
            generator_state(*old(rng)),
            low,
            high,
            count as nat,
        ),
        r@.len() == count,
        forall|i: int| 0 <= i < r@.len() ==> low <= #[trigger] r@[i] < high,
{
    let ghost state = generator_state(*rng);
    let mut out: Vec<usize> = Vec::new();
    let mut i: usize = 0;
    while i < count
        invariant
            i <= count,
            count > 0 ==> low < high,
            state == generator_state(*old(rng)),
            (out@, generator_state(*rng)) == draws(state, low, high, i as nat),
            out@.len() == i,
            forall|k: int| 0 <= k < i ==> low <= #[trigger] out@[k] < high,
        decreases count - i,
    {
        let v: usize = draw_half_open(rng, low, high);
        out.push(v);
        i = i + 1;
    }
    out
}

/// Reordering items that occur once leaves items that occur once, and adds none.
pub proof fn permuted_keeps_distinct<T>(items: Seq<T>, order: Seq<int>)
    requires
        is_permutation(order, items.len()),
        items.no_duplicates(),
    ensures
        permuted(items, order).len() == items.len(),
        permuted(items, order).no_duplicates(),
        forall|i: int|
            0 <= i < items.len() ==> items.contains(#[trigger] permuted(items, order)[i]),
{
}

/// Drawing goes on where it left off: `a + b` numbers are the first `a` and then
/// the `b` drawn from the state that those leave.
pub proof fn draws_compose(state: Seq<u32>, low: usize, high: usize, a: nat, b: nat)
    ensures
        ({
            let first = draws(state, low, high, a);
            let second = draws(first.1, low, high, b);
            &&& draws(state, low, high, a + b).0 == first.0 + second.0
            &&& draws(state, low, high, a + b).1 == second.1
        }),
    decreases b,
{
    let first = draws(state, low, high, a);
    if b == 0 {
        assert(first.0 + Seq::<usize>::empty() =~= first.0);
    } else {
        draws_compose(state, low, high, a, (b - 1) as nat);
        let before = draws(first.1, low, high, (b - 1) as nat);
        let draw = half_open_draw(before.1, low, high);
        assert((first.0 + before.0).push(draw.0) =~= first.0 + before.0.push(draw.0));
    }
}

/// Every number is a draw of its own over the whole range: number `i` is what the
/// generator gives out in the state that the `i` numbers before it leave.
pub proof fn each_number_is_drawn(state: Seq<u32>, low: usize, high: usize, count: nat, i: nat)
    requires
        i < count,
    ensures
        draws(state, low, high, 0) == (Seq::<usize>::empty(), state),
        draws(state, low, high, count).0.len() == count,
        draws(state, low, high, count).0[i as int] == half_open_draw(
            draws(state, low, high, i).1,
            low,
            high,
        ).0,
        draws(state, low, high, i + 1).1 == half_open_draw(
            draws(state, low, high, i).1,
            low,
            high,
        ).1,
    decreases count,
{
    if i + 1 < count {
        each_number_is_drawn(state, low, high, (count - 1) as nat, i);
    } else if i > 0 {
        each_number_is_drawn(state, low, high, i, (i - 1) as nat);
    }
}

/// Place `i` of the reordered items holds the item that stood at place `order[i]`,
/// so reordering by the identity changes nothing.
pub proof fn permuted_takes_each_place<T>(items: Seq<T>, order: Seq<int>)
    ensures
        permuted(items, order).len() == order.len(),
        forall|i: int|
            0 <= i < order.len() ==> #[trigger] permuted(items, order)[i] == items[order[i]],
        permuted(items, Seq::new(items.len(), |i: int| i)) == items,
{
    assert(permuted(items, Seq::new(items.len(), |i: int| i)) =~= items);
}

} // verus!

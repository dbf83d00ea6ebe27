//! A verified merge sort over small keys.

use vstd::multiset::Multiset;
use vstd::prelude::*;

verus! {

/// A total order on copyable keys.
pub trait Ordered: Sized + Copy {
    spec fn precedes(self, other: Self) -> bool;

    proof fn precedes_total(a: Self, b: Self)
        ensures
            a.precedes(b) || b.precedes(a),
    ;

    proof fn precedes_transitive(a: Self, b: Self, c: Self)
        requires
            a.precedes(b),
            b.precedes(c),
        ensures
            a.precedes(c),
    ;

    fn at_most(self, other: Self) -> (r: bool)
        ensures
            r == self.precedes(other),
    ;
}

impl Ordered for usize {
    open spec fn precedes(self, other: usize) -> bool {
        self <= other
    }

    proof fn precedes_total(a: usize, b: usize) {
    }

    proof fn precedes_transitive(a: usize, b: usize, c: usize) {
    }

    fn at_most(self, other: usize) -> (r: bool) {
        self <= other
    }
}

/// An index under a sort key. Keys come first, equal keys keep index order, so
/// sorting these is a stable sort of the indices.
#[derive(Clone, Copy)]
pub struct KeyedIndex {
    pub key: i64,
    pub index: usize,
}

impl Ordered for KeyedIndex {
    open spec fn precedes(self, other: KeyedIndex) -> bool {
        self.key < other.key || (self.key == other.key && self.index <= other.index)
    }

    proof fn precedes_total(a: KeyedIndex, b: KeyedIndex) {
    }

    proof fn precedes_transitive(a: KeyedIndex, b: KeyedIndex, c: KeyedIndex) {
    }

    fn at_most(self, other: KeyedIndex) -> (r: bool) {
        self.key < other.key || (self.key == other.key && self.index <= other.index)
    }
}

/// Each element precedes all later ones.
pub open spec fn sorted<T: Ordered>(s: Seq<T>) -> bool {
    forall|i: int, j: int| 0 <= i < j < s.len() ==> (#[trigger] s[i]).precedes(#[trigger] s[j])
}

/// Moving `rest[i]` to the end of `out` moves it from the untaken part of `rest`
/// to the taken part.
proof fn lemma_take_one<T>(out: Seq<T>, rest: Seq<T>, i: int, others: Multiset<T>)
    requires
        0 <= i < rest.len(),
        out.to_multiset() == rest.take(i).to_multiset().add(others),
    ensures
        out.push(rest[i]).to_multiset() == rest.take(i + 1).to_multiset().add(others),
{
    broadcast use vstd::seq_lib::group_to_multiset_ensures;

    assert(rest.take(i + 1) =~= rest.take(i).push(rest[i]));
}

fn merge<T: Ordered>(left: &Vec<T>, right: &Vec<T>) -> (out: Vec<T>)
    requires
        sorted(left@),
        sorted(right@),
    ensures
        sorted(out@),
        out@.to_multiset() == left@.to_multiset().add(right@.to_multiset()),
{
    broadcast use vstd::seq_lib::group_to_multiset_ensures;

    let mut out: Vec<T> = Vec::new();
    let mut i: usize = 0;
    let mut j: usize = 0;
    while i < left.len() || j < right.len()
        invariant
            0 <= i <= left.len(),
            0 <= j <= right.len(),
            sorted(left@),
            sorted(right@),
            sorted(out@),
            out@.to_multiset() =~= left@.take(i as int).to_multiset().add(
                right@.take(j as int).to_multiset(),
            ),
            forall|a: int, b: int|
                0 <= a < out.len() && i <= b < left.len() ==> (#[trigger] out@[a]).precedes(
                    #[trigger] left@[b],
                ),
            forall|a: int, b: int|
                0 <= a < out.len() && j <= b < right.len() ==> (#[trigger] out@[a]).precedes(
                    #[trigger] right@[b],
                ),
        decreases left.len() - i + right.len() - j,
    {
        let from_left: bool = if i == left.len() {
            false
        } else if j == right.len() {
            true
        } else {
            left[i].at_most(right[j])
        };
        if from_left {
            proof {
                lemma_take_one(out@, left@, i as int, right@.take(j as int).to_multiset());
                let x = left@[i as int];
                assert forall|b: int| j <= b < right.len() implies x.precedes(
                    #[trigger] right@[b],
                ) by {
                    if b > j {
                        T::precedes_transitive(x, right@[j as int], right@[b]);
                    }
                }
            }
            out.push(left[i]);
            i = i + 1;
        } else {
            proof {
                let taken = left@.take(i as int).to_multiset();
                assert(out@.to_multiset() =~= right@.take(j as int).to_multiset().add(taken));
                lemma_take_one(out@, right@, j as int, taken);
                let x = right@[j as int];
                assert forall|b: int| i <= b < left.len() implies x.precedes(
                    #[trigger] left@[b],
                ) by {
                    T::precedes_total(x, left@[i as int]);
                    if b > i {
                        T::precedes_transitive(x, left@[i as int], left@[b]);
                    }
                }
            }
            out.push(right[j]);
            j = j + 1;
        }
    }
    proof {
        assert(left@.take(left@.len() as int) =~= left@);
        assert(right@.take(right@.len() as int) =~= right@);
    }
    out
}

/// Sorts by merging sorted halves.
pub fn merge_sort<T: Ordered>(items: Vec<T>) -> (out: Vec<T>)
    ensures
        sorted(out@),
        out@.to_multiset() == items@.to_multiset(),
    decreases items@.len(),
{
    let ghost whole = items@;
    let mut items = items;
    if items.len() < 2 {
        return items;
    }
    let middle: usize = items.len() / 2;
    let upper: Vec<T> = items.split_off(middle);
    proof {
        assert(whole =~= items@ + upper@);
        vstd::seq_lib::lemma_multiset_commutative(items@, upper@);
    }
    let left: Vec<T> = merge_sort(items);
    let right: Vec<T> = merge_sort(upper);
    merge(&left, &right)
}

/// Numbers are sorted when none is above a later one; keyed indices when no key
/// is above a later one and equal keys keep their indices in order.
pub proof fn sorted_means_ascending(numbers: Seq<usize>, keyed: Seq<KeyedIndex>)
    ensures
        sorted(numbers) <==> forall|i: int, j: int|
            0 <= i < j < numbers.len() ==> #[trigger] numbers[i] <= #[trigger] numbers[j],
        sorted(keyed) <==> forall|i: int, j: int|
            0 <= i < j < keyed.len() ==> (#[trigger] keyed[i]).key <= (#[trigger] keyed[j]).key
                && (keyed[i].key == keyed[j].key ==> keyed[i].index <= keyed[j].index),
{
}

} // verus!

//! Counting the numbers below a bound that satisfy a condition.

use vstd::prelude::*;

verus! {

/// How many of `0..n` satisfy `f`.
pub open spec fn count(n: nat, f: spec_fn(int) -> bool) -> nat
    decreases n,
{
    if n == 0 {
        0
    } else {
        count((n - 1) as nat, f) + if f(n - 1) {
            1nat
        } else {
            0nat
        }
    }
}

/// Conditions that agree below `n` are met equally often.
pub proof fn count_agrees(n: nat, f: spec_fn(int) -> bool, g: spec_fn(int) -> bool)
    requires
        forall|q: int| 0 <= q < n ==> #[trigger] f(q) == g(q),
    ensures
        count(n, f) == count(n, g),
    decreases n,
{
    if n > 0 {
        count_agrees((n - 1) as nat, f, g);
        assert(f(n - 1) == g(n - 1));
    }
}

/// A condition that holds exactly on `lo..hi` is met `hi - lo` times.
pub proof fn count_of_range(n: nat, f: spec_fn(int) -> bool, lo: int, hi: int)
    requires
        0 <= lo <= hi <= n,
        forall|q: int| 0 <= q < n ==> (#[trigger] f(q) <==> lo <= q < hi),
    ensures
        count(n, f) == hi - lo,
    decreases n,
{
    if n > 0 {
        let m = (n - 1) as nat;
        if hi == n {
            if lo == n {
                count_of_range(m, f, m as int, m as int);
            } else {
                count_of_range(m, f, lo, m as int);
            }
        } else {
            count_of_range(m, f, lo, hi);
        }
    }
}

/// Where exactly one of three conditions holds of each number, they are met `n`
/// times together.
pub proof fn count_splits(
    n: nat,
    f: spec_fn(int) -> bool,
    g: spec_fn(int) -> bool,
    h: spec_fn(int) -> bool,
)
    requires
        forall|q: int|
            0 <= q < n ==> (#[trigger] f(q) || g(q) || h(q)) && !(f(q) && g(q)) && !(f(q) && h(
                q,
            )) && !(g(q) && h(q)),
    ensures
        count(n, f) + count(n, g) + count(n, h) == n,
    decreases n,
{
    if n > 0 {
        count_splits((n - 1) as nat, f, g, h);
    }
}

/// A condition that holds whenever another does is met at least as often.
pub proof fn count_grows(n: nat, f: spec_fn(int) -> bool, g: spec_fn(int) -> bool)
    requires
        forall|q: int| 0 <= q < n && #[trigger] f(q) ==> g(q),
    ensures
        count(n, f) <= count(n, g) <= n,
    decreases n,
{
    if n > 0 {
        count_grows((n - 1) as nat, f, g);
    }
}

/// `order` lists each of `0..n` once.
pub open spec fn is_order(order: Seq<int>, n: nat) -> bool {
    &&& order.len() == n
    &&& order.no_duplicates()
    &&& forall|t: int| 0 <= t < n ==> 0 <= #[trigger] order[t] < n
    &&& forall|q: int| 0 <= q < n ==> #[trigger] order.contains(q)
}

/// The numbers below `n` that satisfy `f`.
spec fn satisfying(n: nat, f: spec_fn(int) -> bool) -> Set<int> {
    Set::new(|q: int| 0 <= q < n && f(q))
}

proof fn lemma_count_is_size(n: nat, f: spec_fn(int) -> bool)
    ensures
        satisfying(n, f).finite(),
        satisfying(n, f).len() == count(n, f),
    decreases n,
{
    if n == 0 {
        assert(satisfying(n, f) =~= Set::empty());
    } else {
        let m = (n - 1) as nat;
        lemma_count_is_size(m, f);
        if f(n - 1) {
            assert(satisfying(n, f) =~= satisfying(m, f).insert(n - 1));
        } else {
            assert(satisfying(n, f) =~= satisfying(m, f));
        }
    }
}

/// Counting in another order counts the same.
pub proof fn count_ignores_order(n: nat, f: spec_fn(int) -> bool, order: Seq<int>)
    requires
        is_order(order, n),
    ensures
        count(n, |t: int| f(order[t])) == count(n, f),
{
    let at = |t: int| order[t];
    let g = |t: int| f(order[t]);
    lemma_count_is_size(n, f);
    lemma_count_is_size(n, g);
    let from = satisfying(n, g);
    let to = satisfying(n, f);
    assert forall|q: int| #[trigger] to.contains(q) implies from.map(at).contains(q) by {
        assert(order.contains(q));
        let t = choose|t: int| 0 <= t < order.len() && order[t] == q;
        assert(from.contains(t) && at(t) == q);
    }
    assert(from.map(at) =~= to);
    vstd::set_lib::lemma_map_size(from, to, at);
}

/// Different numbers below `n`, as many as there are, are all of them.
pub proof fn distinct_numbers_are_an_order(order: Seq<int>, n: nat)
    requires
        order.len() == n,
        order.no_duplicates(),
        forall|t: int| 0 <= t < n ==> 0 <= #[trigger] order[t] < n,
    ensures
        is_order(order, n),
{
    let all = vstd::set_lib::set_int_range(0, n as int);
    vstd::set_lib::lemma_int_range(0, n as int);
    order.unique_seq_to_set();
    vstd::set_lib::lemma_subset_equality(order.to_set(), all);
    assert forall|q: int| 0 <= q < n implies #[trigger] order.contains(q) by {
        assert(all.contains(q));
    }
}

/// The kept ones among `0..n` stand in ascending order, each once, and they are
/// exactly the numbers below `n` that are kept.
pub proof fn kept_indices_ascend(n: nat, kept: spec_fn(usize) -> bool)
    requires
        n <= usize::MAX,
    ensures
        ({
            let listed = Seq::new(n, |k: int| k as usize).filter(kept);
            &&& forall|i: int, j: int| 0 <= i < j < listed.len() ==> listed[i] < listed[j]
            &&& forall|k: usize| #[trigger] listed.contains(k) <==> k < n && kept(k)
        }),
    decreases n,
{
    reveal(Seq::filter);
    let all = Seq::new(n, |k: int| k as usize);
    let listed = all.filter(kept);
    if n > 0 {
        let m = (n - 1) as nat;
        kept_indices_ascend(m, kept);
        let before = Seq::new(m, |k: int| k as usize).filter(kept);
        assert(all.drop_last() =~= Seq::new(m, |k: int| k as usize));
        assert(all.last() == m);
        assert forall|i: int| 0 <= i < before.len() implies before[i] < m by {
            assert(before.contains(before[i]));
        }
        assert forall|k: usize| #[trigger] listed.contains(k) <==> k < n && kept(k) by {
            if before.contains(k) {
                let i = choose|i: int| 0 <= i < before.len() && before[i] == k;
                assert(listed[i] == k);
            }
            if k == m && kept(k) {
                assert(listed[before.len() as int] == k);
            }
            if listed.contains(k) {
                let i = choose|i: int| 0 <= i < listed.len() && listed[i] == k;
                if i < before.len() {
                    assert(before.contains(k));
                }
            }
        }
    }
}

/// A count is the size of the set of what it counts.
pub proof fn count_is_the_size_of_the_set(n: nat, f: spec_fn(int) -> bool)
    ensures
        Set::new(|q: int| 0 <= q < n && f(q)).finite(),
        count(n, f) == Set::new(|q: int| 0 <= q < n && f(q)).len(),
{
    lemma_count_is_size(n, f);
    assert(Set::new(|q: int| 0 <= q < n && f(q)) =~= satisfying(n, f));
}

} // verus!

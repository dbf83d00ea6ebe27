//! Statistics for judging the models: a rank correlation with midranks for ties
//! (labels contain many exact zeros, so tie handling matters), and the overlap of
//! two rankings' top places.
//!
//! Ranks are doubled, so that the middle of a tie group is a whole number, and the
//! sums that a correlation is made of are exact.

use crate::counting;
use crate::score;
use crate::score::Score;
use crate::sorting;
use crate::sorting::{merge_sort, KeyedIndex, Ordered};
use vstd::prelude::*;

verus! {

/// How many items can be ranked against each other. The sums of products for more
/// would not fit their type.
pub const MAX_RANKED: u64 = 0x400_0000_0000;

/// The items of `keys` with their places, lowest key first, equal keys in their
/// original order.
pub open spec fn is_arranged(arranged: Seq<KeyedIndex>, keys: Seq<i64>) -> bool {
    &&& sorting::sorted(arranged)
    &&& counting::is_order(places(arranged), keys.len())
    &&& forall|t: int|
        0 <= t < arranged.len() ==> (#[trigger] arranged[t]).key == keys[arranged[t].index as int]
}

/// Where each arranged item came from.
pub open spec fn places(arranged: Seq<KeyedIndex>) -> Seq<int> {
    arranged.map_values(|k: KeyedIndex| k.index as int)
}

/// Sorts the keys, lowest first, and remembers where each came from.
pub fn arrange(keys: &[i64]) -> (r: Vec<KeyedIndex>)
    ensures
        is_arranged(r@, keys@),
{
    let mut items: Vec<KeyedIndex> = Vec::new();
    let mut i: usize = 0;
    while i < keys.len()
        invariant
            i <= keys.len(),
            items@ =~= Seq::new(i as nat, |t: int| KeyedIndex { key: keys@[t], index: t as usize }),
        decreases keys.len() - i,
    {
        items.push(KeyedIndex { key: keys[i], index: i });
        i = i + 1;
    }
    let ghost before = items@;
    let out: Vec<KeyedIndex> = merge_sort(items);
    proof {
        broadcast use vstd::seq_lib::group_to_multiset_ensures;

        let n = keys@.len();
        assert(out@.len() == out@.to_multiset().len() == before.to_multiset().len() == n);
        before.lemma_multiset_has_no_duplicates();
        out@.lemma_multiset_has_no_duplicates_conv();
        assert forall|t: int| 0 <= t < n implies (#[trigger] out@[t]).index < n && out@[t].key
            == keys@[out@[t].index as int] by {
            assert(before.to_multiset().count(out@[t]) > 0);
        }
        let order = places(out@);
        assert forall|q: int| 0 <= q < n implies #[trigger] order.contains(q) by {
            assert(out@.to_multiset().count(before[q]) > 0);
            let t = choose|t: int| 0 <= t < out@.len() && out@[t] == before[q];
            assert(order[t] == q);
        }
    }
    out
}

/// How many scores are lower than the one at `p`.
pub open spec fn lower(x: Seq<Score>, p: int) -> nat {
    counting::count(x.len(), |q: int| x[q].rank() < x[p].rank())
}

/// How many scores are level with the one at `p`, itself included.
pub open spec fn level(x: Seq<Score>, p: int) -> nat {
    counting::count(x.len(), |q: int| x[q].rank() == x[p].rank())
}

/// Twice the rank of the score at `p`, counting from 1 at the lowest. Scores that
/// are level share the mean of the ranks that they take up.
pub open spec fn doubled_rank(x: Seq<Score>, p: int) -> nat {
    2 * lower(x, p) + level(x, p) + 1
}

/// Scores can be compared with each other.
pub open spec fn comparable(x: Seq<Score>) -> bool {
    x.len() >= 2 ==> score::all_numbers(x)
}

/// Within an arrangement by rank, the items level with the one at `t` take up
/// exactly the places `from..to` around it.
proof fn lemma_tie_group(
    x: Seq<Score>,
    keys: Seq<i64>,
    arranged: Seq<KeyedIndex>,
    from: int,
    to: int,
    t: int,
)
    requires
        is_arranged(arranged, keys),
        keys.len() == x.len(),
        forall|q: int| 0 <= q < x.len() ==> #[trigger] keys[q] == x[q].rank(),
        0 <= from <= t < to <= x.len(),
        from > 0 ==> arranged[from - 1].key < arranged[from].key,
        to < x.len() ==> arranged[to - 1].key < arranged[to].key,
        arranged[from].key == arranged[to - 1].key,
    ensures
        lower(x, arranged[t].index as int) == from,
        level(x, arranged[t].index as int) == to - from,
{
    let n = x.len();
    let order = places(arranged);
    let p = arranged[t].index as int;
    let below = |q: int| x[q].rank() < x[p].rank();
    let same = |q: int| x[q].rank() == x[p].rank();
    assert forall|s: int| 0 <= s < n implies (#[trigger] arranged[s]).key
        == x[arranged[s].index as int].rank() && order[s] == arranged[s].index && 0 <= order[s]
        < n by {
        assert(0 <= order[s] < n);
    }
    let middle = arranged[t].key;
    assert forall|s: int| 0 <= s < n implies ((#[trigger] arranged[s]).key < middle <==> s < from)
        && (arranged[s].key == middle <==> from <= s < to) by {
        if s < from {
            assert(s == from - 1 || arranged[s].precedes(arranged[from - 1]));
        } else if s < to {
            assert(s == from || arranged[from].precedes(arranged[s]));
            assert(s == to - 1 || arranged[s].precedes(arranged[to - 1]));
        } else {
            assert(s == to || arranged[to].precedes(arranged[s]));
        }
    }
    counting::count_ignores_order(n, below, order);
    counting::count_ignores_order(n, same, order);
    counting::count_of_range(n, |s: int| below(order[s]), 0, from);
    counting::count_of_range(n, |s: int| same(order[s]), from, to);
}

/// The order keys of the scores.
fn order_keys(x: &[Score]) -> (r: Vec<i64>)
    ensures
        r@.len() == x@.len(),
        forall|q: int| 0 <= q < x@.len() ==> #[trigger] r@[q] == x@[q].rank(),
{
    let mut keys: Vec<i64> = Vec::new();
    let mut i: usize = 0;
    while i < x.len()
        invariant
            i <= x.len(),
            keys@.len() == i,
            forall|q: int| 0 <= q < i ==> #[trigger] keys@[q] == x@[q].rank(),
        decreases x.len() - i,
    {
        keys.push(x[i].order_key());
        i = i + 1;
    }
    keys
}

/// Twice the rank of each score, where tied scores share the mean of their ranks.
pub fn midranks(x: &[Score]) -> (r: Vec<u64>)
    requires
        2 * x@.len() <= u64::MAX,
        comparable(x@),
    ensures
        r@.len() == x@.len(),
        forall|p: int| 0 <= p < x@.len() ==> #[trigger] r@[p] == doubled_rank(x@, p),
{
    let n: usize = x.len();
    let keys: Vec<i64> = order_keys(x);
    let arranged: Vec<KeyedIndex> = arrange(keys.as_slice());
    let ghost order = places(arranged@);
    let mut ranks: Vec<u64> = Vec::new();
    ranks.resize(n, 0);
    let mut i: usize = 0;
    while i < n
        invariant
            i <= n,
            n == x@.len(),
            2 * n <= u64::MAX,
            ranks@.len() == n,
            keys@.len() == n,
            is_arranged(arranged@, keys@),
            order == places(arranged@),
            forall|q: int| 0 <= q < n ==> #[trigger] keys@[q] == x@[q].rank(),
            0 < i < n ==> arranged@[i - 1].key < arranged@[i as int].key,
            forall|t: int|
                0 <= t < i ==> ranks@[(#[trigger] arranged@[t]).index as int] == doubled_rank(
                    x@,
                    arranged@[t].index as int,
                ),
        decreases n - i,
    {
        let mut j: usize = i + 1;
        while j < n && arranged[j].key == arranged[i].key
            invariant
                i < j <= n,
                arranged@.len() == n,
                forall|t: int| i <= t < j ==> (#[trigger] arranged@[t]).key == arranged@[i as int].key,
            decreases n - j,
        {
            j = j + 1;
        }
        proof {
            assert forall|t: int| i <= t < j implies (i + j + 1) as int == doubled_rank(
                x@,
                (#[trigger] arranged@[t]).index as int,
            ) by {
                lemma_tie_group(x@, keys@, arranged@, i as int, j as int, t);
            }
        }
        // The group takes up the ranks i + 1 to j.
        let doubled: u64 = i as u64 + j as u64 + 1;
        let mut k: usize = i;
        while k < j
            invariant
                i <= k <= j <= n,
                n == x@.len(),
                ranks@.len() == n,
                keys@.len() == n,
                is_arranged(arranged@, keys@),
                order == places(arranged@),
                forall|t: int|
                    i <= t < j ==> doubled == doubled_rank(
                        x@,
                        (#[trigger] arranged@[t]).index as int,
                    ),
                forall|t: int|
                    0 <= t < k ==> ranks@[(#[trigger] arranged@[t]).index as int] == doubled_rank(
                        x@,
                        arranged@[t].index as int,
                    ),
            decreases j - k,
        {
            assert(0 <= order[k as int] < n);
            ranks.set(arranged[k].index, doubled);
            proof {
                assert forall|t: int| 0 <= t < k + 1 implies ranks@[(
                #[trigger] arranged@[t]).index as int] == doubled_rank(
                    x@,
                    arranged@[t].index as int,
                ) by {
                    if t < k {
                        assert(order[t] != order[k as int]);
                    }
                }
            }
            k = k + 1;
        }
        i = j;
    }
    assert forall|p: int| 0 <= p < x@.len() implies #[trigger] ranks@[p] == doubled_rank(
        x@,
        p,
    ) by {
        assert(order.contains(p));
    }
    ranks
}

/// Twice how far the rank of each score lies from the mean rank.
pub open spec fn deviations(x: Seq<Score>) -> Seq<int> {
    Seq::new(x.len(), |p: int| doubled_rank(x, p) - (x.len() + 1))
}

/// The sum of the products of two equally long sequences.
pub open spec fn dot(u: Seq<int>, v: Seq<int>) -> int
    decreases u.len(),
{
    if u.len() == 0 {
        0
    } else {
        dot(u.drop_last(), v.drop_last()) + u.last() * v.last()
    }
}

/// The sums that a rank correlation is made of, each over all items and times
/// four: the products of both rank deviations, and the squares of either. The
/// correlation is `covariance / (sqrt(variance_a) * sqrt(variance_b))`, and 0
/// where a variance is 0.
#[derive(Debug, Clone, Copy, PartialEq, Eq, Structural)]
pub struct RankCorrelation {
    pub covariance: i128,
    pub variance_a: i128,
    pub variance_b: i128,
}

impl RankCorrelation {
    /// These are the sums for `a` and `b`; fewer than two items do not vary.
    pub open spec fn relates(self, a: Seq<Score>, b: Seq<Score>) -> bool {
        if a.len() < 2 {
            self.covariance == 0 && self.variance_a == 0 && self.variance_b == 0
        } else {
            &&& self.covariance == dot(deviations(a), deviations(b))
            &&& self.variance_a == dot(deviations(a), deviations(a))
            &&& self.variance_b == dot(deviations(b), deviations(b))
        }
    }
}

proof fn lemma_rank_bounds(x: Seq<Score>, p: int)
    requires
        0 <= p < x.len(),
    ensures
        2 <= doubled_rank(x, p) <= 2 * x.len(),
        -(x.len() as int) < deviations(x)[p] < x.len(),
{
    let n = x.len();
    let below = |q: int| x[q].rank() < x[p].rank();
    let same = |q: int| x[q].rank() == x[p].rank();
    let above = |q: int| x[q].rank() > x[p].rank();
    counting::count_splits(n, below, same, above);
    let only = |q: int| q == p;
    counting::count_grows(n, only, same);
    counting::count_of_range(n, only, p, p + 1);
}

proof fn lemma_product_bound(u: int, v: int, n: int)
    requires
        -n <= u <= n,
        -n <= v <= n,
    ensures
        -(n * n) <= u * v <= n * n,
{
    assert(-(n * n) <= u * v <= n * n) by (nonlinear_arith)
        requires
            -n <= u <= n,
            -n <= v <= n,
    ;
}

proof fn lemma_sum_fits(p: int, n: int, sum: int)
    requires
        0 <= p < n <= MAX_RANKED,
        -(p * (n * n)) <= sum <= p * (n * n),
    ensures
        i128::MIN <= sum - n * n,
        sum + n * n <= i128::MAX,
        (p + 1) * (n * n) == p * (n * n) + n * n,
        n * n <= i128::MAX,
{
    assert(n * n <= 0x400_0000_0000 * 0x400_0000_0000) by (nonlinear_arith)
        requires
            0 <= n <= 0x400_0000_0000,
    ;
    assert(p * (n * n) <= 0x400_0000_0000 * (0x400_0000_0000 * 0x400_0000_0000))
        by (nonlinear_arith)
        requires
            0 <= p <= 0x400_0000_0000,
            0 <= n * n <= 0x400_0000_0000 * 0x400_0000_0000,
    ;
    assert((p + 1) * (n * n) == p * (n * n) + n * n) by (nonlinear_arith);
}

/// Spearman rank correlation between two equally long slices, as the sums that it
/// is made of.
pub fn spearman(a: &[Score], b: &[Score]) -> (r: RankCorrelation)
    requires
        a@.len() == b@.len(),
        a@.len() <= MAX_RANKED,
        comparable(a@),
        comparable(b@),
    ensures
        r.relates(a@, b@),
{
    let mut out: RankCorrelation = RankCorrelation {
        covariance: 0,
        variance_a: 0,
        variance_b: 0,
    };
    let n: usize = a.len();
    if n < 2 {
        return out;
    }
    let ranks_a: Vec<u64> = midranks(a);
    let ranks_b: Vec<u64> = midranks(b);
    let doubled_mean: i128 = n as i128 + 1;
    let ghost da = deviations(a@);
    let ghost db = deviations(b@);
    let ghost square = n as int * n as int;
    let mut p: usize = 0;
    while p < n
        invariant
            p <= n,
            n == a@.len() == b@.len(),
            n <= MAX_RANKED,
            doubled_mean == n + 1,
            ranks_a@.len() == n,
            ranks_b@.len() == n,
            forall|q: int| 0 <= q < n ==> #[trigger] ranks_a@[q] == doubled_rank(a@, q),
            forall|q: int| 0 <= q < n ==> #[trigger] ranks_b@[q] == doubled_rank(b@, q),
            da == deviations(a@),
            db == deviations(b@),
            square == n as int * n as int,
            out.covariance == dot(da.take(p as int), db.take(p as int)),
            out.variance_a == dot(da.take(p as int), da.take(p as int)),
            out.variance_b == dot(db.take(p as int), db.take(p as int)),
            -(p * square) <= out.covariance <= p * square,
            -(p * square) <= out.variance_a <= p * square,
            -(p * square) <= out.variance_b <= p * square,
        decreases n - p,
    {
        proof {
            lemma_rank_bounds(a@, p as int);
            lemma_rank_bounds(b@, p as int);
            lemma_product_bound(da[p as int], db[p as int], n as int);
            lemma_product_bound(da[p as int], da[p as int], n as int);
            lemma_product_bound(db[p as int], db[p as int], n as int);
            lemma_sum_fits(p as int, n as int, out.covariance as int);
            lemma_sum_fits(p as int, n as int, out.variance_a as int);
            lemma_sum_fits(p as int, n as int, out.variance_b as int);
            assert(da.take(p + 1).drop_last() =~= da.take(p as int));
            assert(db.take(p + 1).drop_last() =~= db.take(p as int));
        }
        let x: i128 = ranks_a[p] as i128 - doubled_mean;
        let y: i128 = ranks_b[p] as i128 - doubled_mean;
        out.covariance = out.covariance + x * y;
        out.variance_a = out.variance_a + x * x;
        out.variance_b = out.variance_b + y * y;
        p = p + 1;
    }
    assert(da.take(p as int) =~= da);
    assert(db.take(p as int) =~= db);
    out
}

/// The sum of the first `m` doubled ranks.
pub open spec fn rank_sum(x: Seq<Score>, m: nat) -> nat
    decreases m,
{
    if m == 0 {
        0
    } else {
        rank_sum(x, (m - 1) as nat) + doubled_rank(x, m - 1)
    }
}

/// What one more score adds to the ranks of the scores before it: two for each
/// higher one, one for each level one.
proof fn lemma_ranks_shift(x: Seq<Score>, m: nat)
    requires
        x.len() > 0,
        m < x.len(),
    ensures
        rank_sum(x, m) == rank_sum(x.drop_last(), m) + 2 * counting::count(
            m,
            |q: int| x[q].rank() > x.last().rank(),
        ) + counting::count(m, |q: int| x[q].rank() == x.last().rank()),
    decreases m,
{
    if m > 0 {
        lemma_ranks_shift(x, (m - 1) as nat);
        let y = x.drop_last();
        let p = m - 1;
        let n = y.len();
        counting::count_agrees(
            n,
            |q: int| x[q].rank() < x[p].rank(),
            |q: int| y[q].rank() < y[p].rank(),
        );
        counting::count_agrees(
            n,
            |q: int| x[q].rank() == x[p].rank(),
            |q: int| y[q].rank() == y[p].rank(),
        );
    }
}

/// The ranks of `n` items add up to `n (n + 1) / 2`, whatever the ties, so that
/// their mean is `(n + 1) / 2`.
pub proof fn ranks_have_a_fixed_sum(x: Seq<Score>)
    ensures
        rank_sum(x, x.len()) == x.len() * (x.len() + 1),
    decreases x.len(),
{
    let n = x.len();
    if n > 0 {
        let y = x.drop_last();
        let m = (n - 1) as nat;
        ranks_have_a_fixed_sum(y);
        lemma_ranks_shift(x, m);
        let below = |q: int| x[q].rank() < x.last().rank();
        let same = |q: int| x[q].rank() == x.last().rank();
        let above = |q: int| x[q].rank() > x.last().rank();
        counting::count_splits(m, below, same, above);
        counting::count_agrees(n, below, |q: int| x[q].rank() < x[n - 1].rank());
        counting::count_agrees(n, same, |q: int| x[q].rank() == x[n - 1].rank());
        assert(m * (m + 1) + 2 * n == n * (n + 1)) by (nonlinear_arith)
            requires
                n == m + 1,
        ;
    } else {
        assert(n * (n + 1) == 0) by (nonlinear_arith)
            requires
                n == 0,
        ;
    }
}

/// A higher score has a higher rank, and level scores have the same rank.
pub proof fn ranks_follow_scores(x: Seq<Score>, p: int, q: int)
    requires
        0 <= p < x.len(),
        0 <= q < x.len(),
    ensures
        x[p].rank() < x[q].rank() <==> doubled_rank(x, p) < doubled_rank(x, q),
        x[p].rank() == x[q].rank() <==> doubled_rank(x, p) == doubled_rank(x, q),
{
    if x[p].rank() < x[q].rank() {
        lemma_higher_ranks_higher(x, p, q);
    } else if x[q].rank() < x[p].rank() {
        lemma_higher_ranks_higher(x, q, p);
    }
}

proof fn lemma_higher_ranks_higher(x: Seq<Score>, p: int, q: int)
    requires
        0 <= p < x.len(),
        0 <= q < x.len(),
        x[p].rank() < x[q].rank(),
    ensures
        doubled_rank(x, p) < doubled_rank(x, q),
{
    let n = x.len();
    let below_p = |s: int| x[s].rank() < x[p].rank();
    let same_p = |s: int| x[s].rank() == x[p].rank();
    let below_q = |s: int| x[s].rank() < x[q].rank();
    let rest = |s: int| !(x[s].rank() <= x[p].rank());
    let not_below_q = |s: int| !(x[s].rank() < x[q].rank());
    let never = |s: int| false;
    counting::count_splits(n, below_p, same_p, rest);
    counting::count_splits(n, below_q, not_below_q, never);
    counting::count_of_range(n, never, 0, 0);
    counting::count_grows(n, not_below_q, rest);
    // At least the items up to p's group are below q, and q is level with itself.
    lemma_rank_bounds(x, q);
    let only = |s: int| s == q;
    let same_q = |s: int| x[s].rank() == x[q].rank();
    counting::count_grows(n, only, same_q);
    counting::count_of_range(n, only, q, q + 1);
}

/// Two rankings that agree on which item is lower have the same deviations: every
/// sum of their correlation is the same, and the correlation is 1.
pub proof fn same_order_correlates_fully(a: Seq<Score>, b: Seq<Score>)
    requires
        a.len() == b.len(),
        forall|p: int, q: int|
            0 <= p < a.len() && 0 <= q < a.len() ==> ((#[trigger] a[p]).rank() < (
            #[trigger] a[q]).rank() <==> b[p].rank() < b[q].rank()),
    ensures
        deviations(a) == deviations(b),
        dot(deviations(a), deviations(b)) == dot(deviations(a), deviations(a)),
        dot(deviations(b), deviations(b)) == dot(deviations(a), deviations(a)),
{
    let n = a.len();
    assert forall|p: int| 0 <= p < n implies doubled_rank(a, p) == doubled_rank(b, p) by {
        let la = |q: int| a[q].rank() < a[p].rank();
        let lb = |q: int| b[q].rank() < b[p].rank();
        let sa = |q: int| a[q].rank() == a[p].rank();
        let sb = |q: int| b[q].rank() == b[p].rank();
        counting::count_agrees(n, la, lb);
        counting::count_agrees(n, sa, sb);
    }
}

proof fn lemma_dot_negated(u: Seq<int>, v: Seq<int>)
    requires
        u.len() == v.len(),
        forall|p: int| 0 <= p < u.len() ==> #[trigger] v[p] == -u[p],
    ensures
        dot(u, v) == -dot(u, u),
        dot(v, v) == dot(u, u),
    decreases u.len(),
{
    if u.len() > 0 {
        lemma_dot_negated(u.drop_last(), v.drop_last());
        let x = u.last();
        let y = v.last();
        assert(x * y == -(x * x) && y * y == x * x) by (nonlinear_arith)
            requires
                y == -x,
        ;
    }
}

/// Two rankings in opposite order have opposite deviations: the covariance is the
/// negated variance, and the correlation is -1.
pub proof fn reversed_order_correlates_inversely(a: Seq<Score>, b: Seq<Score>)
    requires
        a.len() == b.len(),
        forall|p: int, q: int|
            0 <= p < a.len() && 0 <= q < a.len() ==> ((#[trigger] a[p]).rank() < (
            #[trigger] a[q]).rank() <==> b[q].rank() < b[p].rank()),
    ensures
        dot(deviations(a), deviations(b)) == -dot(deviations(a), deviations(a)),
        dot(deviations(b), deviations(b)) == dot(deviations(a), deviations(a)),
{
    let n = a.len();
    assert forall|p: int| 0 <= p < n implies #[trigger] deviations(b)[p] == -deviations(a)[p] by {
        let la = |q: int| a[q].rank() < a[p].rank();
        let ha = |q: int| a[q].rank() > a[p].rank();
        let lb = |q: int| b[q].rank() < b[p].rank();
        let sa = |q: int| a[q].rank() == a[p].rank();
        let sb = |q: int| b[q].rank() == b[p].rank();
        counting::count_agrees(n, ha, lb);
        counting::count_agrees(n, sa, sb);
        counting::count_splits(n, la, sa, ha);
    }
    lemma_dot_negated(deviations(a), deviations(b));
}

proof fn lemma_squares(u: Seq<int>)
    ensures
        dot(u, u) >= 0,
        dot(u, u) == 0 <==> forall|p: int| 0 <= p < u.len() ==> #[trigger] u[p] == 0,
    decreases u.len(),
{
    if u.len() > 0 {
        let w = u.drop_last();
        lemma_squares(w);
        let x = u.last();
        assert(x * x >= 0 && (x * x == 0 <==> x == 0)) by (nonlinear_arith);
        if dot(u, u) == 0 {
            assert forall|p: int| 0 <= p < u.len() implies #[trigger] u[p] == 0 by {
                if p < w.len() {
                    assert(w[p] == 0);
                }
            }
        }
    }
}

/// The rank variance is never negative, and it is zero exactly for a constant
/// input.
pub proof fn constant_iff_no_variance(x: Seq<Score>)
    ensures
        dot(deviations(x), deviations(x)) >= 0,
        dot(deviations(x), deviations(x)) == 0 <==> forall|p: int, q: int|
            0 <= p < x.len() && 0 <= q < x.len() ==> (#[trigger] x[p]).rank() == (
            #[trigger] x[q]).rank(),
{
    let n = x.len();
    lemma_squares(deviations(x));
    if forall|p: int, q: int|
        0 <= p < n && 0 <= q < n ==> (#[trigger] x[p]).rank() == (#[trigger] x[q]).rank() {
        assert forall|p: int| 0 <= p < n implies #[trigger] deviations(x)[p] == 0 by {
            counting::count_of_range(n, |q: int| x[q].rank() < x[p].rank(), 0, 0);
            counting::count_of_range(n, |q: int| x[q].rank() == x[p].rank(), 0, n as int);
        }
    }
    if dot(deviations(x), deviations(x)) == 0 {
        assert forall|p: int, q: int| 0 <= p < n && 0 <= q < n implies (#[trigger] x[p]).rank()
            == (#[trigger] x[q]).rank() by {
            assert(deviations(x)[p] == 0 && deviations(x)[q] == 0);
            ranks_follow_scores(x, p, q);
        }
    }
}

proof fn lemma_cauchy_step(c: int, a: int, b: int, x: int, y: int)
    requires
        0 <= a,
        0 <= b,
        c * c <= a * b,
    ensures
        (c + x * y) * (c + x * y) <= (a + x * x) * (b + y * y),
{
    let s = a * (y * y) + b * (x * x);
    let t = 2 * (c * (x * y));
    assert(s >= 0) by (nonlinear_arith)
        requires
            0 <= a,
            0 <= b,
            s == a * (y * y) + b * (x * x),
    ;
    assert(t * t <= s * s) by {
        let xy = (x * y) * (x * y);
        assert(xy >= 0) by (nonlinear_arith)
            requires
                xy == (x * y) * (x * y),
        ;
        assert(t * t == 4 * ((c * c) * xy)) by (nonlinear_arith)
            requires
                t == 2 * (c * (x * y)),
                xy == (x * y) * (x * y),
        ;
        assert((c * c) * xy <= (a * b) * xy) by (nonlinear_arith)
            requires
                c * c <= a * b,
                xy >= 0,
        ;
        let u = a * (y * y);
        let v = b * (x * x);
        assert(u * v == (a * b) * xy) by (nonlinear_arith)
            requires
                u == a * (y * y),
                v == b * (x * x),
                xy == (x * y) * (x * y),
        ;
        assert(4 * (u * v) <= (u + v) * (u + v)) by (nonlinear_arith);
    }
    assert(t <= s) by (nonlinear_arith)
        requires
            t * t <= s * s,
            s >= 0,
    ;
    assert((c + x * y) * (c + x * y) == c * c + t + (x * y) * (x * y)) by (nonlinear_arith)
        requires
            t == 2 * (c * (x * y)),
    ;
    assert((a + x * x) * (b + y * y) == a * b + s + (x * y) * (x * y)) by (nonlinear_arith)
        requires
            s == a * (y * y) + b * (x * x),
    ;
}

proof fn lemma_cauchy(u: Seq<int>, v: Seq<int>)
    requires
        u.len() == v.len(),
    ensures
        dot(u, v) * dot(u, v) <= dot(u, u) * dot(v, v),
    decreases u.len(),
{
    lemma_squares(u);
    lemma_squares(v);
    if u.len() > 0 {
        let (a, b) = (u.drop_last(), v.drop_last());
        lemma_cauchy(a, b);
        lemma_squares(a);
        lemma_squares(b);
        lemma_cauchy_step(dot(a, b), dot(a, a), dot(b, b), u.last(), v.last());
    }
}

/// A rank correlation lies between -1 and 1: its square is at most 1.
pub proof fn correlation_is_bounded(r: RankCorrelation, a: Seq<Score>, b: Seq<Score>)
    requires
        a.len() == b.len(),
        r.relates(a, b),
    ensures
        r.covariance * r.covariance <= r.variance_a * r.variance_b,
{
    lemma_cauchy(deviations(a), deviations(b));
}

/// `q` is ranked ahead of `p`: it scores higher, or the same and comes earlier.
pub open spec fn ahead(x: Seq<Score>, q: int, p: int) -> bool {
    x[q].rank() > x[p].rank() || (x[q].rank() == x[p].rank() && q < p)
}

/// How many items are ranked ahead of `p`.
pub open spec fn place(x: Seq<Score>, p: int) -> nat {
    counting::count(x.len(), |q: int| ahead(x, q, p))
}

/// `p` is among the `k` highest; of level scores the earlier ones come first.
pub open spec fn in_top(x: Seq<Score>, k: nat, p: int) -> bool {
    place(x, p) < k
}

/// How many items are among the `k` highest of both.
pub open spec fn shared_top(a: Seq<Score>, b: Seq<Score>, k: nat) -> nat {
    counting::count(a.len(), |p: int| in_top(a, k, p) && in_top(b, k, p))
}

/// How many of the top `k` items two rankings share. The overlap fraction is
/// `shared / k`, and 0 where `k` is 0.
#[derive(Debug, Clone, Copy, PartialEq, Eq, Structural)]
pub struct Overlap {
    pub shared: usize,
    pub k: usize,
}

impl Overlap {
    /// This is the overlap of the `k` highest of `a` and of `b`, or of all items
    /// where there are fewer.
    pub open spec fn compares(self, a: Seq<Score>, b: Seq<Score>, k: usize) -> bool {
        &&& self.k == if k <= a.len() {
            k as nat
        } else {
            a.len()
        }
        &&& self.shared == shared_top(a, b, self.k as nat)
    }
}

proof fn lemma_arranged_place(
    x: Seq<Score>,
    keys: Seq<i64>,
    arranged: Seq<KeyedIndex>,
    t: int,
)
    requires
        is_arranged(arranged, keys),
        keys.len() == x.len(),
        forall|q: int| 0 <= q < x.len() ==> #[trigger] keys[q] == -x[q].rank(),
        0 <= t < x.len(),
    ensures
        place(x, arranged[t].index as int) == t,
{
    let n = x.len();
    let order = places(arranged);
    let p = arranged[t].index as int;
    let before = |q: int| ahead(x, q, p);
    assert forall|s: int| 0 <= s < n implies (#[trigger] arranged[s]).key
        == -x[arranged[s].index as int].rank() && order[s] == arranged[s].index by {
        assert(0 <= order[s] < n);
    }
    counting::count_ignores_order(n, before, order);
    counting::count_of_range(n, |s: int| before(order[s]), 0, t);
}

/// The place of each item in the ranking, the highest at 0.
pub fn ranking(x: &[Score]) -> (r: Vec<usize>)
    requires
        comparable(x@),
    ensures
        r@.len() == x@.len(),
        forall|p: int| 0 <= p < x@.len() ==> #[trigger] r@[p] == place(x@, p),
{
    let n: usize = x.len();
    let mut keys: Vec<i64> = Vec::new();
    let mut i: usize = 0;
    while i < n
        invariant
            i <= n,
            n == x@.len(),
            keys@.len() == i,
            forall|q: int| 0 <= q < i ==> #[trigger] keys@[q] == -x@[q].rank(),
        decreases n - i,
    {
        keys.push(-x[i].order_key());
        i = i + 1;
    }
    let arranged: Vec<KeyedIndex> = arrange(keys.as_slice());
    let ghost order = places(arranged@);
    let mut out: Vec<usize> = Vec::new();
    out.resize(n, 0);
    let mut t: usize = 0;
    while t < n
        invariant
            t <= n,
            n == x@.len(),
            out@.len() == n,
            keys@.len() == n,
            is_arranged(arranged@, keys@),
            order == places(arranged@),
            forall|q: int| 0 <= q < n ==> #[trigger] keys@[q] == -x@[q].rank(),
            forall|s: int| 0 <= s < t ==> out@[(#[trigger] arranged@[s]).index as int] == s,
        decreases n - t,
    {
        assert(0 <= order[t as int] < n);
        out.set(arranged[t].index, t);
        proof {
            assert forall|s: int| 0 <= s < t + 1 implies out@[(
            #[trigger] arranged@[s]).index as int] == s by {
                if s < t {
                    assert(order[s] != order[t as int]);
                }
            }
        }
        t = t + 1;
    }
    assert forall|p: int| 0 <= p < x@.len() implies #[trigger] out@[p] == place(x@, p) by {
        assert(order.contains(p));
        let s = choose|s: int| 0 <= s < order.len() && order[s] == p;
        lemma_arranged_place(x@, keys@, arranged@, s);
    }
    out
}

/// Overlap |top-k(a) and top-k(b)| of two rankings of the same items.
pub fn top_k_overlap(a: &[Score], b: &[Score], k: usize) -> (r: Overlap)
    requires
        a@.len() == b@.len(),
        k > 0 ==> comparable(a@) && comparable(b@),
    ensures
        r.compares(a@, b@, k),
{
    let n: usize = a.len();
    let k: usize = if k <= n {
        k
    } else {
        n
    };
    let ghost in_both = |p: int| in_top(a@, k as nat, p) && in_top(b@, k as nat, p);
    if k == 0 {
        proof {
            counting::count_of_range(a@.len(), in_both, 0, 0);
        }
        return Overlap { shared: 0, k: 0 };
    }
    let places_a: Vec<usize> = ranking(a);
    let places_b: Vec<usize> = ranking(b);
    let mut shared: usize = 0;
    let mut p: usize = 0;
    while p < n
        invariant
            p <= n,
            n == a@.len() == b@.len(),
            places_a@.len() == n,
            places_b@.len() == n,
            forall|q: int| 0 <= q < n ==> #[trigger] places_a@[q] == place(a@, q),
            forall|q: int| 0 <= q < n ==> #[trigger] places_b@[q] == place(b@, q),
            in_both == (|q: int| in_top(a@, k as nat, q) && in_top(b@, k as nat, q)),
            shared == counting::count(p as nat, in_both),
            shared <= p,
        decreases n - p,
    {
        if places_a[p] < k && places_b[p] < k {
            shared = shared + 1;
        }
        p = p + 1;
    }
    Overlap { shared, k }
}

proof fn lemma_ahead_counts(x: Seq<Score>, p: int, q: int)
    requires
        0 <= p < x.len(),
        0 <= q < x.len(),
        ahead(x, p, q),
    ensures
        place(x, p) < place(x, q),
{
    let n = x.len();
    let before_p = |s: int| ahead(x, s, p);
    let before_q = |s: int| ahead(x, s, q);
    let only = |s: int| s == p;
    let either = |s: int| ahead(x, s, p) || s == p;
    let neither = |s: int| !(ahead(x, s, p) || s == p);
    let never = |s: int| false;
    counting::count_splits(n, before_p, only, neither);
    counting::count_splits(n, either, neither, never);
    counting::count_of_range(n, only, p, p + 1);
    counting::count_of_range(n, never, 0, 0);
    counting::count_grows(n, either, before_q);
}

/// Exactly `k` items are among the `k` highest, whatever the ties.
pub proof fn top_holds_k_items(x: Seq<Score>, k: nat)
    requires
        k <= x.len(),
    ensures
        counting::count(x.len(), |p: int| in_top(x, k, p)) == k,
{
    let n = x.len();
    let order = Seq::new(n, |p: int| place(x, p) as int);
    assert forall|p: int| 0 <= p < n implies 0 <= #[trigger] order[p] < n by {
        let before = |q: int| ahead(x, q, p);
        let only = |q: int| q == p;
        let rest = |q: int| !ahead(x, q, p) && q != p;
        counting::count_splits(n, before, only, rest);
        counting::count_of_range(n, only, p, p + 1);
    }
    assert forall|p: int, q: int| 0 <= p < q < n implies order[p] != order[q] by {
        if ahead(x, p, q) {
            lemma_ahead_counts(x, p, q);
        } else {
            lemma_ahead_counts(x, q, p);
        }
    }
    counting::distinct_numbers_are_an_order(order, n);
    let low = |t: int| t < k;
    counting::count_ignores_order(n, low, order);
    counting::count_of_range(n, low, 0, k as int);
    counting::count_agrees(n, |p: int| low(order[p]), |p: int| in_top(x, k, p));
}

/// Two rankings share at most `k` of their top `k` items, the same number either
/// way round, and all `k` where they are the same ranking.
pub proof fn overlap_is_a_fraction(a: Seq<Score>, b: Seq<Score>, k: nat)
    requires
        a.len() == b.len(),
        k <= a.len(),
    ensures
        shared_top(a, b, k) <= k,
        shared_top(a, b, k) == shared_top(b, a, k),
        shared_top(a, a, k) == k,
{
    let n = a.len();
    let top = |p: int| in_top(a, k, p);
    top_holds_k_items(a, k);
    counting::count_grows(n, |p: int| in_top(a, k, p) && in_top(b, k, p), top);
    counting::count_agrees(
        n,
        |p: int| in_top(a, k, p) && in_top(b, k, p),
        |p: int| in_top(b, k, p) && in_top(a, k, p),
    );
    counting::count_agrees(n, |p: int| in_top(a, k, p) && in_top(a, k, p), top);
}

/// A rank is made of the scores below and beside it: twice the rank of an item is
/// one more than twice the number of items with a lower score and the number of
/// items with the same score. Its deviation is what it exceeds the mean rank by,
/// doubled.
pub proof fn ranks_count_the_scores_below_and_beside(x: Seq<Score>, p: int)
    requires
        0 <= p < x.len(),
    ensures
        doubled_rank(x, p) == 2 * Set::new(
            |q: int| 0 <= q < x.len() && x[q].rank() < x[p].rank(),
        ).len() + Set::new(|q: int| 0 <= q < x.len() && x[q].rank() == x[p].rank()).len() + 1,
        deviations(x).len() == x.len(),
        deviations(x)[p] == doubled_rank(x, p) - x.len() - 1,
{
    let lower_than = |q: int| x[q].rank() < x[p].rank();
    let level_with = |q: int| x[q].rank() == x[p].rank();
    counting::count_is_the_size_of_the_set(x.len(), lower_than);
    counting::count_is_the_size_of_the_set(x.len(), level_with);
    assert(Set::new(|q: int| 0 <= q < x.len() && lower_than(q)) =~= Set::new(
        |q: int| 0 <= q < x.len() && x[q].rank() < x[p].rank(),
    ));
    assert(Set::new(|q: int| 0 <= q < x.len() && level_with(q)) =~= Set::new(
        |q: int| 0 <= q < x.len() && x[q].rank() == x[p].rank(),
    ));
}

/// The sum of products adds up item by item, and it does not matter which of the
/// two sequences comes first.
pub proof fn products_add_up(u: Seq<int>, v: Seq<int>, a: int, b: int)
    requires
        u.len() == v.len(),
    ensures
        dot(Seq::empty(), Seq::empty()) == 0,
        dot(u.push(a), v.push(b)) == dot(u, v) + a * b,
        dot(u, v) == dot(v, u),
    decreases u.len(),
{
    assert(u.push(a).drop_last() =~= u);
    assert(v.push(b).drop_last() =~= v);
    if u.len() > 0 {
        products_add_up(u.drop_last(), v.drop_last(), a, b);
        assert(u.last() * v.last() == v.last() * u.last()) by (nonlinear_arith);
    }
}

/// A correlation is fixed by the rankings: from two items on it holds the sums of
/// products of the rank deviations, whatever the scores are, and with fewer items
/// nothing. The second ranking against the first has the same covariance and the
/// variances exchanged.
pub proof fn correlations_are_fixed_by_the_rankings(
    r: RankCorrelation,
    a: Seq<Score>,
    b: Seq<Score>,
)
    requires
        a.len() == b.len(),
    ensures
        a.len() < 2 ==> (r.relates(a, b) <==> r.covariance == 0 && r.variance_a == 0
            && r.variance_b == 0),
        a.len() >= 2 ==> (r.relates(a, b) <==> r.covariance == dot(deviations(a), deviations(b))
            && r.variance_a == dot(deviations(a), deviations(a)) && r.variance_b == dot(
            deviations(b),
            deviations(b),
        )),
        r.relates(a, b) <==> (RankCorrelation {
            covariance: r.covariance,
            variance_a: r.variance_b,
            variance_b: r.variance_a,
        }).relates(b, a),
{
    products_add_up(deviations(a), deviations(b), 0, 0);
}

/// The place of an item is the number of items ahead of it: those that score
/// higher, and those that score the same and come earlier. It is in the top `k`
/// exactly when fewer than `k` are.
pub proof fn places_count_the_items_ahead(x: Seq<Score>, p: int, k: nat)
    requires
        0 <= p < x.len(),
    ensures
        place(x, p) == Set::new(
            |q: int|
                0 <= q < x.len() && (x[p].rank() < x[q].rank() || x[q].rank() == x[p].rank() && q
                    < p),
        ).len(),
        in_top(x, k, p) <==> place(x, p) < k,
{
    let in_front = |q: int| ahead(x, q, p);
    counting::count_is_the_size_of_the_set(x.len(), in_front);
    assert(Set::new(|q: int| 0 <= q < x.len() && in_front(q)) =~= Set::new(
        |q: int|
            0 <= q < x.len() && (x[p].rank() < x[q].rank() || x[q].rank() == x[p].rank() && q < p),
    ));
}

/// The overlap of two rankings is the number of items that are in the top `k` of
/// both, where `k` is at most the number of items; the rankings can be exchanged.
pub proof fn overlaps_count_the_shared_items(
    overlap: Overlap,
    a: Seq<Score>,
    b: Seq<Score>,
    k: usize,
)
    requires
        a.len() == b.len() <= usize::MAX,
    ensures
        overlap.compares(a, b, k) <==> {
            &&& k <= a.len() ==> overlap.k == k
            &&& k > a.len() ==> overlap.k == a.len()
            &&& overlap.shared == Set::new(
                |p: int| 0 <= p < a.len() && place(a, p) < overlap.k && place(b, p) < overlap.k,
            ).len()
        },
        overlap.compares(a, b, k) <==> overlap.compares(b, a, k),
{
    let top = overlap.k as nat;
    let both = |p: int| in_top(a, top, p) && in_top(b, top, p);
    counting::count_is_the_size_of_the_set(a.len(), both);
    assert(Set::new(|p: int| 0 <= p < a.len() && both(p)) =~= Set::new(
        |p: int| 0 <= p < a.len() && place(a, p) < overlap.k && place(b, p) < overlap.k,
    ));
    counting::count_agrees(a.len(), both, |p: int| in_top(b, top, p) && in_top(a, top, p));
}

/// An arrangement lists every key once, with the place that it came from, lowest
/// key first; equal keys keep the order of their places.
pub proof fn arrangements_list_every_key_once(
    arranged: Seq<KeyedIndex>,
    keys: Seq<i64>,
    q: int,
)
    requires
        is_arranged(arranged, keys),
        0 <= q < keys.len(),
    ensures
        arranged.len() == keys.len(),
        forall|t: int|
            0 <= t < arranged.len() ==> (#[trigger] arranged[t]).index < keys.len()
                && arranged[t].key == keys[arranged[t].index as int],
        forall|s: int, t: int|
            0 <= s < t < arranged.len() ==> (#[trigger] arranged[s]).key < (
            #[trigger] arranged[t]).key || (arranged[s].key == arranged[t].key
                && arranged[s].index < arranged[t].index),
        exists|t: int| 0 <= t < arranged.len() && (#[trigger] arranged[t]).index == q,
{
    let order = places(arranged);
    assert forall|t: int| 0 <= t < arranged.len() implies (#[trigger] arranged[t]).index
        < keys.len() by {
        assert(order[t] == arranged[t].index);
    }
    assert forall|s: int, t: int| 0 <= s < t < arranged.len() implies (#[trigger] arranged[s]).key
        < (#[trigger] arranged[t]).key || (arranged[s].key == arranged[t].key
        && arranged[s].index < arranged[t].index) by {
        assert(arranged[s].precedes(arranged[t]));
        assert(order[s] != order[t]);
    }
    assert(order.contains(q));
    let t = choose|t: int| 0 <= t < order.len() && order[t] == q;
    assert(arranged[t].index == q);
}

} // verus!

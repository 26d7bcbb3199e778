//! Sum, mean and extremes of a sequence of readings, and the facts about
//! them that the aggregation rests on.

use vstd::prelude::*;

verus! {

/// The sum of the readings.
pub open spec fn total(values: Seq<nat>) -> nat
    decreases values.len(),
{
    if values.len() == 0 {
        0
    } else {
        total(values.drop_last()) + values.last()
    }
}

/// The arithmetic mean of the readings, rounded down to a whole unit; zero
/// where there is no reading.
pub open spec fn mean(values: Seq<nat>) -> nat {
    if values.len() == 0 {
        0
    } else {
        total(values) / values.len()
    }
}

/// The least of the readings; zero where there is none.
pub open spec fn lowest(values: Seq<nat>) -> nat
    decreases values.len(),
{
    if values.len() == 0 {
        0
    } else if values.len() == 1 {
        values.last()
    } else if values.last() < lowest(values.drop_last()) {
        values.last()
    } else {
        lowest(values.drop_last())
    }
}

/// The greatest of the readings; zero where there is none.
pub open spec fn highest(values: Seq<nat>) -> nat
    decreases values.len(),
{
    if values.len() == 0 {
        0
    } else if values.len() == 1 {
        values.last()
    } else if values.last() > highest(values.drop_last()) {
        values.last()
    } else {
        highest(values.drop_last())
    }
}

/// Whether `m` is one of the readings and none is less.
pub open spec fn is_least(values: Seq<nat>, m: nat) -> bool {
    &&& exists|i: int| 0 <= i < values.len() && values[i] == m
    &&& forall|i: int| 0 <= i < values.len() ==> m <= values[i]
}

/// Whether `m` is one of the readings and none is greater.
pub open spec fn is_greatest(values: Seq<nat>, m: nat) -> bool {
    &&& exists|i: int| 0 <= i < values.len() && values[i] == m
    &&& forall|i: int| 0 <= i < values.len() ==> values[i] <= m
}

/// `lowest` is the minimum of the readings and `highest` their maximum.
pub proof fn lemma_extremes(values: Seq<nat>)
    requires
        values.len() > 0,
    ensures
        is_least(values, lowest(values)),
        is_greatest(values, highest(values)),
    decreases values.len(),
{
    let n = values.len() - 1;
    let front = values.drop_last();
    if n > 0 {
        lemma_extremes(front);
        let i = choose|i: int| 0 <= i < front.len() && front[i] == lowest(front);
        let j = choose|j: int| 0 <= j < front.len() && front[j] == highest(front);
        assert(values[i] == front[i] && values[j] == front[j]);
        assert forall|k: int| 0 <= k < values.len() implies lowest(values) <= values[k]
            && values[k] <= highest(values) by {
            if k < n {
                assert(values[k] == front[k]);
            }
        }
    }
    assert(values[n] == values.last());
}

/// The mean is the quotient of the sum by the number of readings: it lies
/// within one unit under the exact mean, and between the extremes.
pub proof fn lemma_mean(values: Seq<nat>)
    requires
        values.len() > 0,
    ensures
        mean(values) * values.len() <= total(values) < (mean(values) + 1) * values.len(),
        lowest(values) <= mean(values) <= highest(values),
{
    let n = values.len() as int;
    let t = total(values) as int;
    lemma_extremes(values);
    lemma_total_bounds(values, lowest(values), highest(values));
    let lo = lowest(values) as int;
    let hi = highest(values) as int;
    assert((t / n) * n <= t < (t / n + 1) * n && (lo * n <= t ==> lo <= t / n) && (t <= hi * n
        ==> t / n <= hi)) by (nonlinear_arith)
        requires
            n > 0,
            t >= 0,
    ;
}

/// Readings that all lie between `lo` and `hi` sum to between `lo` and `hi`
/// times their number.
pub proof fn lemma_total_bounds(values: Seq<nat>, lo: nat, hi: nat)
    requires
        forall|i: int| 0 <= i < values.len() ==> lo <= #[trigger] values[i] <= hi,
    ensures
        lo * values.len() <= total(values) <= hi * values.len(),
    decreases values.len(),
{
    if values.len() > 0 {
        let front = values.drop_last();
        assert forall|i: int| 0 <= i < front.len() implies lo <= #[trigger] front[i] <= hi by {
            assert(front[i] == values[i]);
        }
        lemma_total_bounds(front, lo, hi);
        let n = front.len() as int;
        assert(lo * (n + 1) == lo * n + lo && hi * (n + 1) == hi * n + hi) by (nonlinear_arith);
    }
}

/// Taking one reading out lowers the sum by that reading.
proof fn lemma_total_remove(values: Seq<nat>, k: int)
    requires
        0 <= k < values.len(),
    ensures
        total(values) == total(values.remove(k)) + values[k],
    decreases values.len(),
{
    let n = values.len() - 1;
    if k == n {
        assert(values.remove(k) =~= values.drop_last());
    } else {
        lemma_total_remove(values.drop_last(), k);
        assert(values.remove(k).drop_last() =~= values.drop_last().remove(k));
        assert(values.remove(k).last() == values.last());
    }
}

/// The sum does not depend on the order of the readings.
pub proof fn lemma_total_ignores_order(a: Seq<nat>, b: Seq<nat>)
    requires
        a.to_multiset() == b.to_multiset(),
    ensures
        total(a) == total(b),
    decreases a.len(),
{
    broadcast use vstd::seq_lib::group_to_multiset_ensures;

    a.to_multiset_ensures();
    b.to_multiset_ensures();
    assert(a.len() == b.len());
    if a.len() > 0 {
        let x = a.last();
        assert(a.to_multiset().count(x) > 0) by {
            assert(a.contains(x));
        }
        assert(b.contains(x));
        let k = choose|k: int| 0 <= k < b.len() && b[k] == x;
        let n = a.len() - 1;
        assert(a.remove(n) =~= a.drop_last());
        assert(a.drop_last().to_multiset() =~= a.to_multiset().remove(x));
        assert(b.remove(k).to_multiset() =~= b.to_multiset().remove(x));
        lemma_total_ignores_order(a.drop_last(), b.remove(k));
        lemma_total_remove(b, k);
    }
}

/// Sum, mean, minimum and maximum do not depend on the order of the
/// readings: two sequences that hold the same readings, each as often as
/// the other, have all four in common.
pub proof fn lemma_aggregates_ignore_order(a: Seq<nat>, b: Seq<nat>)
    requires
        a.to_multiset() == b.to_multiset(),
    ensures
        a.len() == b.len(),
        total(a) == total(b),
        mean(a) == mean(b),
        lowest(a) == lowest(b),
        highest(a) == highest(b),
{
    broadcast use vstd::seq_lib::group_to_multiset_ensures;

    a.to_multiset_ensures();
    b.to_multiset_ensures();
    lemma_total_ignores_order(a, b);
    if a.len() > 0 {
        lemma_extremes(a);
        lemma_extremes(b);
        assert(a.contains(lowest(a)) && a.contains(highest(a)));
        assert(b.contains(lowest(b)) && b.contains(highest(b)));
        assert(b.to_multiset().count(lowest(a)) > 0 && b.to_multiset().count(highest(a)) > 0);
        assert(a.to_multiset().count(lowest(b)) > 0 && a.to_multiset().count(highest(b)) > 0);
        assert(b.contains(lowest(a)) && b.contains(highest(a)));
        assert(a.contains(lowest(b)) && a.contains(highest(b)));
    }
}

/// Readings that are taken from the same items, each as often, are the
/// same readings, each as often: the order of the items does not matter.
pub proof fn lemma_readings_of_permutation<A>(a: Seq<A>, b: Seq<A>, reading: spec_fn(A) -> nat)
    requires
        a.to_multiset() == b.to_multiset(),
    ensures
        a.map_values(reading).to_multiset() == b.map_values(reading).to_multiset(),
    decreases a.len(),
{
    broadcast use vstd::seq_lib::group_to_multiset_ensures;

    a.to_multiset_ensures();
    b.to_multiset_ensures();
    assert(a.len() == b.len());
    let ra = a.map_values(reading);
    let rb = b.map_values(reading);
    if a.len() == 0 {
        assert(ra =~= rb);
    } else {
        let x = a.last();
        assert(a.to_multiset().count(x) > 0) by {
            assert(a.contains(x));
        }
        assert(b.contains(x));
        let k = choose|k: int| 0 <= k < b.len() && b[k] == x;
        let n = a.len() - 1;
        assert(a.remove(n) =~= a.drop_last());
        assert(a.drop_last().to_multiset() =~= a.to_multiset().remove(x));
        assert(b.remove(k).to_multiset() =~= b.to_multiset().remove(x));
        lemma_readings_of_permutation(a.drop_last(), b.remove(k), reading);
        assert(ra =~= a.drop_last().map_values(reading).push(reading(x)));
        assert(rb.remove(k) =~= b.remove(k).map_values(reading));
        assert(rb[k] == reading(x));
        rb.to_multiset_ensures();
        assert(rb.to_multiset().count(reading(x)) > 0) by {
            assert(rb.contains(reading(x)));
        }
        assert(rb.to_multiset() =~= rb.remove(k).to_multiset().insert(reading(x)));
        assert(ra.to_multiset() =~= rb.to_multiset());
    }
}

} // verus!

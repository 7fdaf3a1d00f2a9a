//! The integer statistics of repeated timings.

use vstd::prelude::*;

verus! {

/// The smallest and largest of a list of timings, and their total.
pub struct TimingTotals {
    pub min: u128,
    pub max: u128,
    pub total: u128,
}

/// The sum of the timings.
pub open spec fn timing_sum(values: Seq<u128>) -> nat
    decreases values.len(),
{
    if values.len() == 0 {
        0
    } else {
        timing_sum(values.drop_last()) + values.last() as nat
    }
}

/// `m` is the least of the values, 0 when there are none.
pub open spec fn is_least(m: u128, values: Seq<u128>) -> bool {
    if values.len() == 0 {
        m == 0
    } else {
        (exists|i: int| 0 <= i < values.len() && values[i] == m) && forall|i: int|
            0 <= i < values.len() ==> m <= #[trigger] values[i]
    }
}

/// `m` is the greatest of the values, 0 when there are none.
pub open spec fn is_greatest(m: u128, values: Seq<u128>) -> bool {
    if values.len() == 0 {
        m == 0
    } else {
        (exists|i: int| 0 <= i < values.len() && values[i] == m) && forall|i: int|
            0 <= i < values.len() ==> #[trigger] values[i] <= m
    }
}

/// The least and greatest timing and the total, or `None` when the total
/// does not fit in a `u128`.
pub fn timing_totals(values: &Vec<u128>) -> (r: Option<TimingTotals>)
    ensures
        r is Some <==> timing_sum(values@) <= u128::MAX,
        r matches Some(t) ==> {
            &&& t.total == timing_sum(values@)
            &&& is_least(t.min, values@)
            &&& is_greatest(t.max, values@)
        },
{
    if values.len() == 0 {
        return Some(TimingTotals { min: 0, max: 0, total: 0 });
    }
    let mut min: u128 = values[0];
    let mut max: u128 = values[0];
    let mut total: u128 = 0;
    let mut i: usize = 0;
    while i < values.len()
        invariant
            0 < values.len(),
            i <= values.len(),
            total == timing_sum(values@.take(i as int)),
            exists|k: int| 0 <= k < values.len() && values@[k] == min,
            exists|k: int| 0 <= k < values.len() && values@[k] == max,
            forall|k: int| 0 <= k < i ==> min <= #[trigger] values@[k],
            forall|k: int| 0 <= k < i ==> #[trigger] values@[k] <= max,
            i == 0 ==> min == values@[0] && max == values@[0],
        decreases values.len() - i,
    {
        proof {
            assert(values@.take(i + 1).drop_last() =~= values@.take(i as int));
        }
        let v = values[i];
        if total > u128::MAX - v {
            proof {
                lemma_timing_sum_prefix(values@, i + 1);
            }
            return None;
        }
        total = total + v;
        if v < min {
            min = v;
        }
        if v > max {
            max = v;
        }
        i = i + 1;
    }
    proof {
        assert(values@.take(values.len() as int) =~= values@);
    }
    Some(TimingTotals { min, max, total })
}

/// A prefix sums to no more than the whole.
proof fn lemma_timing_sum_prefix(values: Seq<u128>, n: int)
    requires
        0 <= n <= values.len(),
    ensures
        timing_sum(values.take(n)) <= timing_sum(values),
    decreases values.len() - n,
{
    if n < values.len() {
        lemma_timing_sum_prefix(values, n + 1);
        assert(values.take(n + 1).drop_last() =~= values.take(n));
    } else {
        assert(values.take(n) =~= values);
    }
}

} // verus!

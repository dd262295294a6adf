//! Statistics over the history of a walk that need no floating point: its
//! extremes, its sum, its zero crossings and the time it spends in each
//! ternary state.

use vstd::prelude::*;

use crate::common::{state_index, state_index_spec, in_i64};

verus! {

/// Sum of the values in `s`.
pub open spec fn seq_sum(s: Seq<i64>) -> int
    decreases s.len(),
{
    if s.len() == 0 {
        0
    } else {
        seq_sum(s.drop_last()) + s.last()
    }
}

/// `a` and `b` lie on different sides of zero (zero counts as non-negative).
pub open spec fn crosses_zero(a: i64, b: i64) -> bool {
    (a < 0 && b >= 0) || (a >= 0 && b < 0)
}

/// Number of consecutive pairs in `s` that cross zero.
pub open spec fn zero_crossings_spec(s: Seq<i64>) -> int
    decreases s.len(),
{
    if s.len() < 2 {
        0
    } else {
        zero_crossings_spec(s.drop_last()) + if crosses_zero(s[s.len() - 2], s.last()) {
            1int
        } else {
            0int
        }
    }
}

/// Number of values in `s` whose ternary state index is `k`.
pub open spec fn state_count_spec(s: Seq<i64>, k: int) -> int
    decreases s.len(),
{
    if s.len() == 0 {
        0
    } else {
        state_count_spec(s.drop_last(), k) + if state_index_spec(s.last() as int) == k {
            1int
        } else {
            0int
        }
    }
}

/// Every running sum of `s`, taken left to right, fits in an `i64`.
pub open spec fn running_sums_fit(s: Seq<i64>) -> bool {
    forall|k: int| 0 <= k <= s.len() ==> in_i64(#[trigger] seq_sum(s.take(k)))
}

/// How many values of `history` fall in each ternary state, by `v % 3`:
/// index 0 counts the state -1, index 1 the state 0, index 2 the state +1.
pub fn state_counts(history: &[i64]) -> (counts: [u64; 3])
    ensures
        forall|k: int| 0 <= k < 3 ==> counts[k] == state_count_spec(history@, k),
{
    let mut counts: [u64; 3] = [0, 0, 0];
    let mut i: usize = 0;
    while i < history.len()
        invariant
            i <= history.len(),
            forall|k: int| 0 <= k < 3 ==> counts[k] == state_count_spec(history@.take(i as int), k),
            forall|k: int| 0 <= k < 3 ==> counts[k] <= i,
        decreases history.len() - i,
    {
        let v = history[i];
        let idx = state_index(v);
        assert(history@.take(i + 1).drop_last() =~= history@.take(i as int));
        counts[idx] = counts[idx] + 1;
        i = i + 1;
    }
    assert(history@.take(history.len() as int) =~= history@);
    counts
}

/// The integer statistics of a walk's history.
#[derive(Debug, Clone, Copy)]
pub struct HistorySummary {
    pub position: i64,
    pub min: i64,
    pub max: i64,
    pub sum: i64,
    pub zero_crossings: u64,
    pub time_in_each_state: [u64; 3],
}

impl HistorySummary {
    /// Summarise `history`: its last value, its least and greatest values,
    /// its sum, how often it crosses zero, and how many values fall in each
    /// ternary state. An empty history gives all zeros.
    pub fn from_history(history: &[i64]) -> (r: Self)
        requires
            running_sums_fit(history@),
        ensures
            history@.len() == 0 ==> r.position == 0 && r.min == 0 && r.max == 0 && r.sum == 0
                && r.zero_crossings == 0 && r.time_in_each_state == [0u64, 0u64, 0u64],
            history@.len() > 0 ==> {
                &&& r.position == history@.last()
                &&& history@.contains(r.min)
                &&& history@.contains(r.max)
                &&& forall|i: int| 0 <= i < history@.len() ==> r.min <= #[trigger] history@[i] <= r.max
                &&& r.sum == seq_sum(history@)
                &&& r.zero_crossings == zero_crossings_spec(history@)
                &&& forall|k: int|
                    0 <= k < 3 ==> r.time_in_each_state[k] == state_count_spec(history@, k)
            },
    {
        if history.len() == 0 {
            return HistorySummary {
                position: 0,
                min: 0,
                max: 0,
                sum: 0,
                zero_crossings: 0,
                time_in_each_state: [0, 0, 0],
            };
        }
        let position = history[history.len() - 1];
        let mut min_val = history[0];
        let mut max_val = history[0];
        let mut sum: i64 = 0;
        let mut zero_crossings: u64 = 0;
        let mut i: usize = 0;
        while i < history.len()
            invariant
                0 < history.len(),
                i <= history.len(),
                running_sums_fit(history@),
                sum == seq_sum(history@.take(i as int)),
                zero_crossings == zero_crossings_spec(history@.take(i as int)),
                zero_crossings <= i,
                history@.contains(min_val),
                history@.contains(max_val),
                forall|j: int| 0 <= j < i ==> min_val <= #[trigger] history@[j] <= max_val,
            decreases history.len() - i,
        {
            let v = history[i];
            if v < min_val {
                min_val = v;
            }
            if v > max_val {
                max_val = v;
            }
            assert(history@.take(i + 1).drop_last() =~= history@.take(i as int));
            assert(in_i64(seq_sum(history@.take(i + 1))));
            sum = sum + v;
            if i > 0 {
                let prev = history[i - 1];
                if (prev < 0 && v >= 0) || (prev >= 0 && v < 0) {
                    zero_crossings = zero_crossings + 1;
                }
            }
            i = i + 1;
        }
        assert(history@.take(history.len() as int) =~= history@);
        let counts = state_counts(history);
        HistorySummary {
            position,
            min: min_val,
            max: max_val,
            sum,
            zero_crossings,
            time_in_each_state: counts,
        }
    }
}

/// A pair crosses zero exactly when one value is negative and the other is
/// not (zero counts as non-negative); the test is symmetric.
pub proof fn lemma_crosses_zero_law(a: i64, b: i64)
    ensures
        crosses_zero(a, b) <==> ((a < 0) != (b < 0)),
        crosses_zero(a, b) == crosses_zero(b, a),
{
}

/// Appending a value to a non-empty history adds one zero crossing exactly
/// when the new value and the last one lie on different sides of zero, with
/// zero counted as non-negative.
pub proof fn lemma_zero_crossings_push(s: Seq<i64>, x: i64)
    requires
        s.len() > 0,
    ensures
        zero_crossings_spec(s.push(x)) == zero_crossings_spec(s) + if (s.last() < 0) != (x < 0) {
            1int
        } else {
            0int
        },
{
    assert(s.push(x).drop_last() =~= s);
}

/// The three state counts of a history add up to its length.
pub proof fn lemma_state_counts_total(s: Seq<i64>)
    ensures
        state_count_spec(s, 0) + state_count_spec(s, 1) + state_count_spec(s, 2) == s.len(),
    decreases s.len(),
{
    if s.len() > 0 {
        lemma_state_counts_total(s.drop_last());
    }
}

/// A history crosses zero at most once between each pair of neighbours.
pub proof fn lemma_zero_crossings_bound(s: Seq<i64>)
    requires
        s.len() > 0,
    ensures
        0 <= zero_crossings_spec(s) <= s.len() - 1,
    decreases s.len(),
{
    if s.len() > 1 {
        lemma_zero_crossings_bound(s.drop_last());
    }
}

} // verus!

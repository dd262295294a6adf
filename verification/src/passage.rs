//! First passage times and return times read off the history of a walk.

use vstd::prelude::*;

use std::collections::BTreeMap;

verus! {

/// `i` is the first index at which `h` holds `v`.
pub open spec fn is_first_index(h: Seq<i64>, v: i64, i: int) -> bool {
    &&& 0 <= i < h.len()
    &&& h[i] == v
    &&& forall|j: int| 0 <= j < i ==> h[j] != v
}

/// Compute the first passage time (number of steps) to reach each distinct
/// value in the walk history.
#[derive(Debug, Clone)]
pub struct FirstPassageTime {
    /// Map from target value to the step index at which it was first reached.
    pub passage_times: BTreeMap<i64, u64>,
}

impl FirstPassageTime {
    /// Map each value that occurs in `history` to the index of its first
    /// occurrence.
    pub fn from_history(history: &[i64]) -> (r: Self)
        ensures
            forall|v: i64| r.passage_times@.contains_key(v) <==> history@.contains(v),
            forall|v: i64|
                #[trigger] r.passage_times@.contains_key(v) ==> is_first_index(
                    history@,
                    v,
                    r.passage_times@[v] as int,
                ),
    {
        let mut passage_times: BTreeMap<i64, u64> = BTreeMap::new();
        let mut i: usize = 0;
        while i < history.len()
            invariant
                i <= history.len(),
                forall|v: i64|
                    passage_times@.contains_key(v) <==> history@.take(i as int).contains(v),
                forall|v: i64|
                    #[trigger] passage_times@.contains_key(v) ==> is_first_index(
                        history@,
                        v,
                        passage_times@[v] as int,
                    ),
            decreases history.len() - i,
        {
            let v = history[i];
            let ghost before = history@.take(i as int);
            assert(history@.take(i + 1) =~= before.push(v));
            if !passage_times.contains_key(&v) {
                passage_times.insert(v, i as u64);
                assert forall|j: int| 0 <= j < i implies history@[j] != v by {
                    assert(before[j] == history@[j]);
                }
            }
            let ghost after = history@.take(i + 1);
            assert forall|w: i64| passage_times@.contains_key(w) <==> after.contains(w) by {
                if w == v {
                    assert(after[i as int] == v);
                }
                if after.contains(w) && w != v {
                    let j = choose|j: int| 0 <= j < after.len() && #[trigger] after[j] == w;
                    assert(before[j] == w);
                }
                if passage_times@.contains_key(w) && w != v {
                    let j = choose|j: int| 0 <= j < before.len() && #[trigger] before[j] == w;
                    assert(after[j] == w);
                }
            }
            i = i + 1;
        }
        assert(history@.take(history.len() as int) =~= history@);
        FirstPassageTime { passage_times }
    }

    /// The first passage time to `value`, or `None` if it was never reached.
    pub fn time_to(&self, value: i64) -> (r: Option<u64>)
        ensures
            r == (if self.passage_times@.contains_key(value) {
                Some(self.passage_times@[value])
            } else {
                None
            }),
    {
        match self.passage_times.get(&value) {
            Some(t) => Some(*t),
            None => None,
        }
    }
}


/// The indices at which `h` holds `t`, in increasing order.
pub open spec fn visits_spec(h: Seq<i64>, t: i64) -> Seq<int>
    decreases h.len(),
{
    if h.len() == 0 {
        Seq::empty()
    } else if h.last() == t {
        visits_spec(h.drop_last(), t).push(h.len() - 1)
    } else {
        visits_spec(h.drop_last(), t)
    }
}

/// The gaps between consecutive visits of `h` to `t`.
pub open spec fn intervals_spec(h: Seq<i64>, t: i64) -> Seq<u64> {
    let v = visits_spec(h, t);
    if v.len() == 0 {
        Seq::empty()
    } else {
        Seq::new((v.len() - 1) as nat, |k: int| (v[k + 1] - v[k]) as u64)
    }
}

/// Sum of a sequence of `u64` values.
pub open spec fn sum_u64(s: Seq<u64>) -> int
    decreases s.len(),
{
    if s.len() == 0 {
        0
    } else {
        sum_u64(s.drop_last()) + s.last()
    }
}

/// The visits of `h` to `t` are exactly the indices holding `t`, each once,
/// in increasing order.
pub proof fn lemma_visits(h: Seq<i64>, t: i64)
    ensures
        forall|k: int|
            0 <= k < visits_spec(h, t).len() ==> 0 <= #[trigger] visits_spec(h, t)[k] < h.len()
                && h[visits_spec(h, t)[k]] == t,
        forall|k: int, l: int|
            0 <= k < l < visits_spec(h, t).len() ==> visits_spec(h, t)[k] < visits_spec(
                h,
                t,
            )[l],
        forall|i: int| 0 <= i < h.len() && h[i] == t ==> visits_spec(h, t).contains(i),
    decreases h.len(),
{
    if h.len() > 0 {
        let p = h.drop_last();
        lemma_visits(p, t);
        assert forall|i: int| 0 <= i < h.len() && h[i] == t implies visits_spec(h, t).contains(i) by {
            if i < h.len() - 1 {
                assert(p[i] == t);
                let k = choose|k: int| 0 <= k < visits_spec(p, t).len() && visits_spec(p, t)[k] == i;
                assert(visits_spec(h, t)[k] == i);
            } else {
                assert(visits_spec(h, t).last() == i);
            }
        }
    }
}

/// The gaps between visits add up to the distance from the first visit to
/// the last.
pub proof fn lemma_intervals_telescope(h: Seq<i64>, t: i64)
    requires
        visits_spec(h, t).len() > 0,
        h.len() <= u64::MAX,
    ensures
        sum_u64(intervals_spec(h, t)) == visits_spec(h, t).last() - visits_spec(h, t)[0],
        intervals_spec(h, t).len() == visits_spec(h, t).len() - 1,
    decreases h.len(),
{
    let p = h.drop_last();
    lemma_visits(h, t);
    lemma_visits(p, t);
    if h.last() != t {
        lemma_intervals_telescope(p, t);
        assert(intervals_spec(h, t) =~= intervals_spec(p, t));
    } else if visits_spec(p, t).len() == 0 {
        assert(intervals_spec(h, t) =~= Seq::<u64>::empty());
    } else {
        lemma_intervals_telescope(p, t);
        let vp = visits_spec(p, t);
        let vh = visits_spec(h, t);
        assert(vh == vp.push(h.len() - 1));
        assert(vh[0] == vp[0]);
        assert(vp.last() < h.len() - 1);
        assert(intervals_spec(h, t).drop_last() =~= intervals_spec(p, t));
        assert(intervals_spec(h, t).last() == (h.len() - 1 - vp.last()) as u64);
    }
}

/// The gaps between visits of `history` to `target`, in order.
fn intervals_for(history: &[i64], target: i64) -> (intervals: Vec<u64>)
    ensures
        intervals@ == intervals_spec(history@, target),
{
    let mut last_visit: Option<u64> = None;
    let mut intervals: Vec<u64> = Vec::new();
    let mut i: usize = 0;
    while i < history.len()
        invariant
            i <= history.len(),
            intervals@ == intervals_spec(history@.take(i as int), target),
            last_visit == (if visits_spec(history@.take(i as int), target).len() == 0 {
                None::<u64>
            } else {
                Some(visits_spec(history@.take(i as int), target).last() as u64)
            }),
        decreases history.len() - i,
    {
        let ghost p = history@.take(i as int);
        let ghost h = history@.take(i + 1);
        proof {
            assert(h.drop_last() =~= p);
            lemma_visits(p, target);
        }
        let v = history[i];
        if v == target {
            if let Some(prev) = last_visit {
                intervals.push(i as u64 - prev);
                assert(intervals@ =~= intervals_spec(h, target));
            } else {
                assert(intervals@ =~= intervals_spec(h, target));
            }
            last_visit = Some(i as u64);
        }
        i = i + 1;
    }
    assert(history@.take(history.len() as int) =~= history@);
    intervals
}

/// Distribution of return times (steps between returns) to the origin or to
/// each visited state.
#[derive(Debug, Clone)]
pub struct ReturnTimeDistribution {
    /// Map from value to the list of interval lengths between consecutive visits.
    pub return_intervals: BTreeMap<i64, Vec<u64>>,
}

impl ReturnTimeDistribution {
    /// Return time intervals for the origin (0).
    pub fn to_origin(history: &[i64]) -> (r: Self)
        ensures
            r.return_intervals@.dom() == set![0i64],
            r.return_intervals@[0]@ == intervals_spec(history@, 0),
    {
        Self::to_value(history, 0)
    }

    /// Return time intervals for every visited state.
    pub fn to_all_states(history: &[i64]) -> (r: Self)
        ensures
            forall|v: i64| r.return_intervals@.contains_key(v) <==> history@.contains(v),
            forall|v: i64|
                #[trigger] r.return_intervals@.contains_key(v) ==> r.return_intervals@[v]@
                    == intervals_spec(history@, v),
    {
        let mut all: BTreeMap<i64, Vec<u64>> = BTreeMap::new();
        let mut i: usize = 0;
        while i < history.len()
            invariant
                i <= history.len(),
                forall|v: i64| all@.contains_key(v) <==> history@.take(i as int).contains(v),
                forall|v: i64|
                    #[trigger] all@.contains_key(v) ==> all@[v]@ == intervals_spec(history@, v),
            decreases history.len() - i,
        {
            let v = history[i];
            let ghost before = history@.take(i as int);
            let ghost after = history@.take(i + 1);
            assert(after =~= before.push(v));
            if !all.contains_key(&v) {
                let intervals = intervals_for(history, v);
                all.insert(v, intervals);
            }
            assert forall|w: i64| all@.contains_key(w) <==> after.contains(w) by {
                if w == v {
                    assert(after[i as int] == v);
                }
                if after.contains(w) && w != v {
                    let j = choose|j: int| 0 <= j < after.len() && #[trigger] after[j] == w;
                    assert(before[j] == w);
                }
                if all@.contains_key(w) && w != v {
                    let j = choose|j: int| 0 <= j < before.len() && #[trigger] before[j] == w;
                    assert(after[j] == w);
                }
            }
            i = i + 1;
        }
        assert(history@.take(history.len() as int) =~= history@);
        ReturnTimeDistribution { return_intervals: all }
    }

    /// Return time intervals for the value `target`.
    pub fn to_value(history: &[i64], target: i64) -> (r: Self)
        ensures
            r.return_intervals@.dom() == set![target],
            r.return_intervals@[target]@ == intervals_spec(history@, target),
    {
        let intervals = intervals_for(history, target);
        let mut map: BTreeMap<i64, Vec<u64>> = BTreeMap::new();
        map.insert(target, intervals);
        assert(map@.dom() =~= set![target]);
        ReturnTimeDistribution { return_intervals: map }
    }

    /// The total and the number of the return intervals recorded for
    /// `value`; `None` where none are recorded.
    pub fn return_time_totals(&self, value: i64) -> (r: Option<(u64, usize)>)
        requires
            self.return_intervals@.contains_key(value) ==> sum_u64(
                self.return_intervals@[value]@,
            ) <= u64::MAX,
        ensures
            r == (if self.return_intervals@.contains_key(value)
                && self.return_intervals@[value]@.len() > 0 {
                Some(
                    (
                        sum_u64(self.return_intervals@[value]@) as u64,
                        self.return_intervals@[value]@.len() as usize,
                    ),
                )
            } else {
                None
            }),
    {
        match self.return_intervals.get(&value) {
            None => None,
            Some(intervals) => {
                if intervals.len() == 0 {
                    None
                } else {
                    let mut total: u64 = 0;
                    let mut i: usize = 0;
                    while i < intervals.len()
                        invariant
                            i <= intervals@.len(),
                            sum_u64(intervals@) <= u64::MAX,
                            total == sum_u64(intervals@.take(i as int)),
                        decreases intervals.len() - i,
                    {
                        proof {
                            assert(intervals@.take(i + 1).drop_last() =~= intervals@.take(i as int));
                            lemma_sum_u64_prefix(intervals@, i + 1);
                        }
                        total = total + intervals[i];
                        i = i + 1;
                    }
                    assert(intervals@.take(intervals.len() as int) =~= intervals@);
                    Some((total, intervals.len()))
                }
            }
        }
    }
}

/// A prefix of a sequence of `u64` values sums to no more than the whole.
pub proof fn lemma_sum_u64_prefix(s: Seq<u64>, k: int)
    requires
        0 <= k <= s.len(),
    ensures
        sum_u64(s.take(k)) <= sum_u64(s),
    decreases s.len(),
{
    if k < s.len() {
        assert(s.drop_last().take(k) =~= s.take(k));
        lemma_sum_u64_prefix(s.drop_last(), k);
    } else {
        assert(s.take(k) =~= s);
    }
}

} // verus!

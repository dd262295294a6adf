//! The abstract state shared by the one-dimensional walks, and the small
//! helpers that turn numbers into ternary steps.

use vstd::prelude::*;

verus! {

/// Abstract state of a one-dimensional walk: where it stands, how many
/// steps it has taken, and every position it has occupied, in order.
pub struct WalkState {
    pub position: i64,
    pub steps: u64,
    pub history: Seq<i64>,
}

impl WalkState {
    /// The state after one step that lands on `p`.
    pub open spec fn moved_to(self, p: i64) -> WalkState {
        WalkState { position: p, steps: (self.steps + 1) as u64, history: self.history.push(p) }
    }

    /// The state after one step by `d`.
    pub open spec fn moved(self, d: int) -> WalkState {
        self.moved_to((self.position + d) as i64)
    }

    /// The history holds the start plus one entry per step, and ends where
    /// the walk stands.
    pub open spec fn wf(self) -> bool {
        &&& self.history.len() == self.steps + 1
        &&& self.history.last() == self.position
    }

    /// Consecutive positions in the history after index `k` differ by at
    /// most one.
    pub open spec fn unit_steps_from(self, k: int) -> bool {
        forall|i: int|
            k < i < self.history.len() ==> -1 <= #[trigger] self.history[i] - self.history[i - 1]
                <= 1
    }
}

/// `x` is a value of `i64`.
pub open spec fn in_i64(x: int) -> bool {
    i64::MIN <= x <= i64::MAX
}

/// `v` clamped into [-1, 1].
pub open spec fn clamp_spec(v: int) -> int {
    if v < -1 {
        -1
    } else if v > 1 {
        1
    } else {
        v
    }
}

/// The step that a choice index stands for: 0 is -1, 1 is 0, anything else is +1.
pub open spec fn step_value_spec(idx: int) -> int {
    if idx == 0 {
        -1
    } else if idx == 1 {
        0
    } else {
        1
    }
}

/// Index of the ternary state of `v`, read from `v` modulo 3: a value
/// congruent to 2 (that is, to -1) is state -1 (index 0), one congruent
/// to 0 is state 0 (index 1), one congruent to 1 is state +1 (index 2).
pub open spec fn state_index_spec(v: int) -> int {
    let m = v % 3;
    if m == 0 {
        1
    } else if m == 1 {
        2
    } else {
        0
    }
}

/// Clamp a value into the range [-1, 1].
pub(crate) fn clamp_ternary(v: i64) -> (r: i64)
    ensures
        r == clamp_spec(v as int),
        -1 <= r <= 1,
{
    if v < -1 {
        -1
    } else if v > 1 {
        1
    } else {
        v
    }
}

/// Convert a ternary step index (0, 1, 2) to its value (-1, 0, +1).
pub(crate) fn step_value(idx: usize) -> (r: i64)
    ensures
        r == step_value_spec(idx as int),
        -1 <= r <= 1,
{
    match idx {
        0 => -1,
        1 => 0,
        _ => 1,
    }
}

/// The ternary state index of `v`, classified by `v % 3`.
pub(crate) fn state_index(v: i64) -> (r: usize)
    ensures
        r == state_index_spec(v as int),
        r < 3,
{
    let m = v % 3;
    if m == -2 || m == 1 {
        2
    } else if m == -1 || m == 2 {
        0
    } else {
        1
    }
}


/// One step keeps a walk well formed, and keeps its earlier history.
pub proof fn lemma_moved_to_keeps_wf(s: WalkState, p: i64)
    requires
        s.wf(),
        s.steps < u64::MAX,
    ensures
        s.moved_to(p).wf(),
        s.moved_to(p).history.take(s.history.len() as int) == s.history,
{
    assert(s.moved_to(p).history.take(s.history.len() as int) =~= s.history);
}

/// A step of at most one unit keeps consecutive positions after index `k`
/// within one unit.
pub proof fn lemma_moved_keeps_unit_steps(s: WalkState, d: int, k: int)
    requires
        s.wf(),
        0 <= k,
        s.unit_steps_from(k),
        -1 <= d <= 1,
        in_i64(s.position + d),
    ensures
        s.moved(d).unit_steps_from(k),
{
    let t = s.moved(d);
    assert forall|i: int| k < i < t.history.len() implies -1 <= #[trigger] t.history[i]
        - t.history[i - 1] <= 1 by {
        if i < s.history.len() {
            assert(t.history[i] == s.history[i]);
            assert(t.history[i - 1] == s.history[i - 1]);
        }
    }
}

/// The step a choice index 0, 1 or 2 stands for is the index less one,
/// and the ternary state of a value is the one of -1, 0, +1 congruent to it
/// modulo 3, its index being that state plus one.
pub proof fn lemma_ternary_laws(idx: int, v: int)
    ensures
        0 <= idx < 3 ==> step_value_spec(idx) == idx - 1,
        0 <= state_index_spec(v) < 3,
        (v - (state_index_spec(v) - 1)) % 3 == 0,
        state_index_spec(v) == (v + 1) % 3,
{
}

/// Every draw in `rolls` is one that `rng` can return.
pub open spec fn draws_from<F: FnMut() -> u32>(rng: F, rolls: Seq<u32>) -> bool {
    forall|k: int| 0 <= k < rolls.len() ==> call_ensures(rng, (), #[trigger] rolls[k])
}

/// A further draw that `rng` can return extends the draws taken from it.
pub proof fn lemma_draws_push<F: FnMut() -> u32>(rng: F, rolls: Seq<u32>, r: u32)
    requires
        draws_from(rng, rolls),
        call_ensures(rng, (), r),
    ensures
        draws_from(rng, rolls.push(r)),
{
    let next = rolls.push(r);
    assert forall|k: int| 0 <= k < next.len() implies call_ensures(rng, (), #[trigger] next[k]) by {
        if k < rolls.len() {
            assert(next[k] == rolls[k]);
        }
    }
}

} // verus!

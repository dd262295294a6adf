//! A ternary walk with momentum: it tends to repeat its last step.

use vstd::prelude::*;

use crate::common::{WalkState, clamp_spec, clamp_ternary, in_i64, step_value, step_value_spec};
use crate::simple::has_room;

verus! {

/// Abstract state of a walk with momentum: the walk and its last step.
pub struct MomentumState {
    pub walk: WalkState,
    pub last_direction: i64,
}

/// The step that draws `first` and `second` make under `momentum` (out of
/// 100): the last step again when `first % 100 < momentum`, else the
/// uniform step that `second % 3` picks.
pub open spec fn momentum_delta_spec(momentum: u32, last: i64, first: u32, second: u32) -> int {
    if first % 100 < momentum {
        last as int
    } else {
        step_value_spec((second % 3) as int)
    }
}

/// One step from `s` under the draws `first` and `second`.
pub open spec fn momentum_step_spec(s: MomentumState, momentum: u32, first: u32, second: u32) -> MomentumState {
    let d = momentum_delta_spec(momentum, s.last_direction, first, second);
    MomentumState { walk: s.walk.moved(d), last_direction: d as i64 }
}

/// One step from `s` under the draws `first` and `second` can be taken
/// without overflow.
pub open spec fn momentum_step_fits(s: MomentumState, momentum: u32, first: u32, second: u32) -> bool {
    &&& in_i64(s.walk.position + momentum_delta_spec(momentum, s.last_direction, first, second))
    &&& s.walk.steps < u64::MAX
}

/// The state after the steps whose draws are the pairs in `rolls`, in order.
pub open spec fn momentum_run_spec(s: MomentumState, momentum: u32, rolls: Seq<(u32, u32)>) -> MomentumState
    decreases rolls.len(),
{
    if rolls.len() == 0 {
        s
    } else {
        momentum_step_spec(
            momentum_run_spec(s, momentum, rolls.drop_last()),
            momentum,
            rolls.last().0,
            rolls.last().1,
        )
    }
}

/// `first`, and `second` where `first` does not repeat the last step, are
/// draws that `rng` can return.
pub open spec fn momentum_drawn<F: FnMut() -> u32>(rng: F, momentum: u32, first: u32, second: u32) -> bool {
    &&& call_ensures(rng, (), first)
    &&& first % 100 >= momentum ==> call_ensures(rng, (), second)
}

/// Every pair in `rolls` holds draws that `rng` can return: the first of
/// each pair always, the second where the first does not repeat the last step.
pub open spec fn momentum_draws_from<F: FnMut() -> u32>(rng: F, momentum: u32, rolls: Seq<(u32, u32)>) -> bool {
    forall|k: int|
        0 <= k < rolls.len() ==> momentum_drawn(rng, momentum, (#[trigger] rolls[k]).0, rolls[k].1)
}

/// No step from `s` under draws that `rng` can return overflows.
pub open spec fn momentum_step_ok<F: FnMut() -> u32>(rng: F, s: MomentumState, momentum: u32) -> bool {
    forall|first: u32, second: u32|
        momentum_drawn(rng, momentum, first, second) ==> #[trigger] momentum_step_fits(
            s,
            momentum,
            first,
            second,
        )
}

/// No sequence of fewer than `n` pairs of draws that `rng` can return
/// leads to a step that overflows.
pub open spec fn momentum_run_fits<F: FnMut() -> u32>(
    rng: F,
    s: MomentumState,
    momentum: u32,
    n: int,
) -> bool {
    forall|rolls: Seq<(u32, u32)>, first: u32, second: u32|
        rolls.len() < n && momentum_draws_from(rng, momentum, rolls) && momentum_drawn(
            rng,
            momentum,
            first,
            second,
        ) ==> #[trigger] momentum_step_fits(
            momentum_run_spec(s, momentum, rolls),
            momentum,
            first,
            second,
        )
}

/// A walk where each step has momentum: the probability of repeating the
/// last direction is `momentum` out of 100.
#[derive(Debug, Clone)]
pub struct CorrelatedWalk {
    pub position: i64,
    pub steps: u64,
    pub momentum: u32,
    pub last_direction: i64,
    pub history: Vec<i64>,
}

impl View for CorrelatedWalk {
    type V = MomentumState;

    open spec fn view(&self) -> MomentumState {
        MomentumState {
            walk: WalkState { position: self.position, steps: self.steps, history: self.history@ },
            last_direction: self.last_direction,
        }
    }
}

impl CorrelatedWalk {
    /// A walk at `start` with momentum capped at 100 and the initial
    /// direction clamped into [-1, 1].
    pub fn new(start: i64, momentum: u32, initial_direction: i64) -> (w: Self)
        ensures
            w@ == (MomentumState {
                walk: WalkState { position: start, steps: 0, history: seq![start] },
                last_direction: clamp_spec(initial_direction as int) as i64,
            }),
            w.momentum == (if momentum > 100 { 100 } else { momentum }),
    {
        let mut w = CorrelatedWalk {
            position: start,
            steps: 0,
            momentum: if momentum > 100 {
                100
            } else {
                momentum
            },
            last_direction: clamp_ternary(initial_direction),
            history: Vec::new(),
        };
        w.history.push(start);
        w
    }

    /// Take the step that the draws `first` and `second` make; `second` is
    /// read only when the walk does not repeat its last step.
    pub fn step_by_rolls(&mut self, first: u32, second: u32)
        requires
            momentum_step_fits(old(self)@, old(self).momentum, first, second),
        ensures
            final(self)@ == momentum_step_spec(old(self)@, old(self).momentum, first, second),
            final(self).momentum == old(self).momentum,
            final(self).last_direction == final(self).position - old(self).position,
            final(self).steps == old(self).steps + 1,
            final(self).history@ == old(self).history@.push(final(self).position),
            first % 100 < old(self).momentum ==> final(self).position == old(self).position
                + old(self).last_direction,
            first % 100 >= old(self).momentum ==> final(self).position == old(self).position + (
            second % 3) - 1,
    {
        let roll = first % 100;
        let delta = if roll < self.momentum {
            self.last_direction
        } else {
            step_value((second as usize) % 3)
        };
        self.last_direction = delta;
        self.position = self.position + delta;
        self.steps = self.steps + 1;
        self.history.push(self.position);
    }

    /// One step with momentum, returning the draws it used.
    fn step_from<F: FnMut() -> u32>(&mut self, rng: &mut F) -> (drawn: Ghost<(u32, u32)>)
        requires
            call_requires(*old(rng), ()),
            momentum_step_ok(*old(rng), old(self)@, old(self).momentum),
        ensures
            *final(rng) == *old(rng),
            momentum_drawn(*old(rng), old(self).momentum, drawn@.0, drawn@.1),
            final(self)@ == momentum_step_spec(old(self)@, old(self).momentum, drawn@.0, drawn@.1),
            final(self).momentum == old(self).momentum,
            final(self).last_direction == final(self).position - old(self).position,
            final(self).steps == old(self).steps + 1,
            final(self).history@ == old(self).history@.push(final(self).position),
    {
        let roll = rng() % 100;
        let ghost first = choose|first: u32| call_ensures(*old(rng), (), first) && roll == first % 100;
        let ghost mut second: u32 = 0;
        let delta = if roll < self.momentum {
            self.last_direction
        } else {
            let x = rng();
            proof {
                second = x;
            }
            step_value((x as usize) % 3)
        };
        assert(momentum_step_fits(old(self)@, old(self).momentum, first, second));
        self.last_direction = delta;
        self.position = self.position + delta;
        self.steps = self.steps + 1;
        self.history.push(self.position);
        Ghost((first, second))
    }

    /// Take one step: draw a roll out of 100 and repeat the last step if it
    /// falls below the momentum, else draw again for a uniform step.
    pub fn step<F: FnMut() -> u32>(&mut self, rng: &mut F)
        requires
            call_requires(*old(rng), ()),
            momentum_step_ok(*old(rng), old(self)@, old(self).momentum),
        ensures
            call_requires(*final(rng), ()),
            exists|first: u32, second: u32|
                momentum_drawn(*old(rng), old(self).momentum, first, second) && final(self)@
                    == momentum_step_spec(old(self)@, old(self).momentum, first, second) && (
                first % 100 < old(self).momentum ==> final(self).position == old(self).position
                    + old(self).last_direction) && (first % 100 >= old(self).momentum
                    ==> final(self).position == old(self).position + (second % 3) - 1),
            final(self).momentum == old(self).momentum,
            final(self).last_direction == final(self).position - old(self).position,
            final(self).steps == old(self).steps + 1,
            final(self).history@ == old(self).history@.push(final(self).position),
    {
        let Ghost(drawn) = self.step_from(rng);
    }

    /// Run `n` steps with momentum.
    pub fn run<F: FnMut() -> u32>(&mut self, n: u64, rng: &mut F)
        requires
            call_requires(*old(rng), ()),
            momentum_run_fits(*old(rng), old(self)@, old(self).momentum, n as int),
        ensures
            call_requires(*final(rng), ()),
            exists|rolls: Seq<(u32, u32)>|
                rolls.len() == n && momentum_draws_from(*old(rng), old(self).momentum, rolls)
                    && final(self)@ == momentum_run_spec(old(self)@, old(self).momentum, rolls),
            final(self).momentum == old(self).momentum,
    {
        let ghost start = self@;
        let ghost mut rolls: Seq<(u32, u32)> = Seq::empty();
        let mut i: u64 = 0;
        while i < n
            invariant
                call_requires(*rng, ()),
                *rng == *old(rng),
                i <= n,
                rolls.len() == i,
                momentum_draws_from(*old(rng), self.momentum, rolls),
                self.momentum == old(self).momentum,
                self@ == momentum_run_spec(start, self.momentum, rolls),
                momentum_run_fits(*old(rng), start, self.momentum, n as int),
            decreases n - i,
        {
            assert forall|first: u32, second: u32|
                momentum_drawn(*old(rng), self.momentum, first, second) implies #[trigger] momentum_step_fits(
                self@,
                self.momentum,
                first,
                second,
            ) by {
                assert(momentum_step_fits(
                    momentum_run_spec(start, self.momentum, rolls),
                    self.momentum,
                    first,
                    second,
                ));
            }
            let Ghost(drawn) = self.step_from(rng);
            proof {
                let next = rolls.push(drawn);
                assert(next.drop_last() =~= rolls);
                assert forall|k: int| 0 <= k < next.len() implies momentum_drawn(
                    *old(rng),
                    self.momentum,
                    (#[trigger] next[k]).0,
                    next[k].1,
                ) by {
                    if k < rolls.len() {
                        assert(next[k] == rolls[k]);
                    }
                }
                rolls = next;
            }
            i = i + 1;
        }
    }
}

/// One step with momentum adds to the position either the last step (when
/// the first draw modulo 100 falls below the momentum) or the uniform step
/// `second % 3 - 1`; the walk's last direction afterwards is exactly what
/// the step added, a neutral step included, and the step is counted and
/// appended to the history.
pub proof fn lemma_momentum_step_law(s: MomentumState, momentum: u32, first: u32, second: u32)
    requires
        momentum_step_fits(s, momentum, first, second),
    ensures
        ({
            let t = momentum_step_spec(s, momentum, first, second);
            &&& t.last_direction == t.walk.position - s.walk.position
            &&& t.walk.position == s.walk.position + if first % 100 < momentum {
                s.last_direction as int
            } else {
                (second % 3) - 1
            }
            &&& t.walk.steps == s.walk.steps + 1
            &&& t.walk.history == s.walk.history.push(t.walk.position)
        }),
{
}

/// With full momentum a walk never changes direction: after any draws it
/// has moved by its last step once per draw, and still heads the same way.
pub proof fn lemma_full_momentum_keeps_direction(
    s: MomentumState,
    momentum: u32,
    rolls: Seq<(u32, u32)>,
)
    requires
        momentum >= 100,
        -1 <= s.last_direction <= 1,
        has_room(s.walk, rolls.len() as int),
    ensures
        momentum_run_spec(s, momentum, rolls).last_direction == s.last_direction,
        momentum_run_spec(s, momentum, rolls).walk.position == s.walk.position + rolls.len()
            * s.last_direction,
        momentum_run_spec(s, momentum, rolls).walk.steps == s.walk.steps + rolls.len(),
    decreases rolls.len(),
{
    if rolls.len() > 0 {
        let k = rolls.len() - 1;
        lemma_full_momentum_keeps_direction(s, momentum, rolls.drop_last());
        assert(rolls.last().0 % 100 < momentum);
        let d = s.last_direction as int;
        assert((k + 1) * d == k * d + d) by (nonlinear_arith);
        assert(-k <= k * d <= k) by (nonlinear_arith)
            requires
                -1 <= d <= 1,
                k >= 0,
        ;
    }
}

/// A walk whose last step is a unit step moves by at most one unit per
/// draw, and counts one step per draw.
pub proof fn lemma_momentum_run_bounds(s: MomentumState, momentum: u32, rolls: Seq<(u32, u32)>)
    requires
        -1 <= s.last_direction <= 1,
        has_room(s.walk, rolls.len() as int),
    ensures
        -1 <= momentum_run_spec(s, momentum, rolls).last_direction <= 1,
        s.walk.position - rolls.len() <= momentum_run_spec(s, momentum, rolls).walk.position
            <= s.walk.position + rolls.len(),
        momentum_run_spec(s, momentum, rolls).walk.steps == s.walk.steps + rolls.len(),
    decreases rolls.len(),
{
    if rolls.len() > 0 {
        lemma_momentum_run_bounds(s, momentum, rolls.drop_last());
    }
}

/// A unit last step and room for `n` unit steps rule out every overflow
/// over `n` steps, whatever the source returns.
pub proof fn lemma_momentum_run_fits<F: FnMut() -> u32>(rng: F, s: MomentumState, momentum: u32, n: int)
    requires
        -1 <= s.last_direction <= 1,
        has_room(s.walk, n),
    ensures
        momentum_run_fits(rng, s, momentum, n),
{
    assert forall|rolls: Seq<(u32, u32)>, first: u32, second: u32|
        rolls.len() < n && momentum_draws_from(rng, momentum, rolls) && momentum_drawn(
            rng,
            momentum,
            first,
            second,
        ) implies #[trigger] momentum_step_fits(
        momentum_run_spec(s, momentum, rolls),
        momentum,
        first,
        second,
    ) by {
        lemma_momentum_run_bounds(s, momentum, rolls);
    }
}

} // verus!

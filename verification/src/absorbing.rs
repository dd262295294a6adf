//! A ternary walk that stops for good once it reaches a target value.

use vstd::prelude::*;

use crate::common::{
    WalkState, clamp_spec, clamp_ternary, draws_from, in_i64, lemma_draws_push, step_value,
};
use crate::simple::{has_room, uniform_step_spec};

verus! {

/// Abstract state of an absorbing walk: the walk itself and whether it has
/// been absorbed.
pub struct AbsorbingState {
    pub walk: WalkState,
    pub absorbed: bool,
}

/// One step by `d` toward `target`: nothing happens once absorbed; else the
/// walk moves and is absorbed exactly when it lands on `target`.
pub open spec fn absorb_step_spec(s: AbsorbingState, target: i64, d: int) -> AbsorbingState {
    if s.absorbed {
        s
    } else {
        let w = s.walk.moved(d);
        AbsorbingState { walk: w, absorbed: w.position == target }
    }
}

/// One step by `d` from `s` can be taken without overflow.
pub open spec fn absorb_step_fits(s: AbsorbingState, d: int) -> bool {
    s.absorbed || (in_i64(s.walk.position + d) && s.walk.steps < u64::MAX)
}

/// The state after the uniform steps drawn as `rolls`, in order.
pub open spec fn absorb_run_spec(s: AbsorbingState, target: i64, rolls: Seq<u32>) -> AbsorbingState
    decreases rolls.len(),
{
    if rolls.len() == 0 {
        s
    } else {
        absorb_step_spec(
            absorb_run_spec(s, target, rolls.drop_last()),
            target,
            uniform_step_spec(rolls.last()),
        )
    }
}

/// No sequence of fewer than `n` draws that `rng` can return leads to a
/// step that overflows.
pub open spec fn absorb_run_fits<F: FnMut() -> u32>(
    rng: F,
    s: AbsorbingState,
    target: i64,
    n: int,
) -> bool {
    forall|rolls: Seq<u32>, r: u32|
        rolls.len() < n && draws_from(rng, rolls) && call_ensures(rng, (), r)
            ==> #[trigger] absorb_step_fits(absorb_run_spec(s, target, rolls), uniform_step_spec(r))
}

/// A walk that stops (is absorbed) when it hits a specific target value.
#[derive(Debug, Clone)]
pub struct AbsorbingWalk {
    pub position: i64,
    pub steps: u64,
    pub absorbed: bool,
    pub target: i64,
    pub history: Vec<i64>,
}

impl View for AbsorbingWalk {
    type V = AbsorbingState;

    open spec fn view(&self) -> AbsorbingState {
        AbsorbingState {
            walk: WalkState { position: self.position, steps: self.steps, history: self.history@ },
            absorbed: self.absorbed,
        }
    }
}

impl AbsorbingWalk {
    /// A walk at `start` heading for `target`; absorbed at once if they agree.
    pub fn new(start: i64, target: i64) -> (w: Self)
        ensures
            w@ == (AbsorbingState {
                walk: WalkState { position: start, steps: 0, history: seq![start] },
                absorbed: start == target,
            }),
            w.target == target,
    {
        let absorbed = start == target;
        let mut w = AbsorbingWalk { position: start, steps: 0, absorbed, target, history: Vec::new() };
        w.history.push(start);
        w
    }

    /// Take a step by `delta` clamped into [-1, 1]; returns false, and takes
    /// no step, if already absorbed.
    pub fn step(&mut self, delta: i64) -> (moved: bool)
        requires
            absorb_step_fits(old(self)@, clamp_spec(delta as int)),
        ensures
            moved == !old(self).absorbed,
            final(self)@ == absorb_step_spec(old(self)@, old(self).target, clamp_spec(delta as int)),
            final(self).target == old(self).target,
            old(self).absorbed ==> {
                &&& final(self).position == old(self).position
                &&& final(self).steps == old(self).steps
                &&& final(self).history@ == old(self).history@
                &&& final(self).absorbed
            },
            !old(self).absorbed ==> {
                &&& final(self).absorbed == (final(self).position == old(self).target)
                &&& final(self).position == old(self).position + if delta < -1 {
                    -1
                } else if delta > 1 {
                    1
                } else {
                    delta as int
                }
                &&& final(self).steps == old(self).steps + 1
                &&& final(self).history@ == old(self).history@.push(final(self).position)
            },
    {
        if self.absorbed {
            return false;
        }
        let d = clamp_ternary(delta);
        self.position = self.position + d;
        self.steps = self.steps + 1;
        self.history.push(self.position);
        if self.position == self.target {
            self.absorbed = true;
        }
        true
    }

    /// Run uniform steps until absorbed or `max_steps` draws were used.
    /// Returns the total number of steps the walk has taken.
    pub fn run_until_absorbed<F: FnMut() -> u32>(&mut self, max_steps: u64, rng: &mut F) -> (total: u64)
        requires
            call_requires(*old(rng), ()),
            absorb_run_fits(*old(rng), old(self)@, old(self).target, max_steps as int),
        ensures
            call_requires(*final(rng), ()),
            total == final(self).steps,
            final(self).target == old(self).target,
            exists|rolls: Seq<u32>|
                {
                    &&& rolls.len() <= max_steps
                    &&& draws_from(*old(rng), rolls)
                    &&& final(self)@ == absorb_run_spec(old(self)@, old(self).target, rolls)
                    &&& final(self).absorbed || rolls.len() == max_steps
                    &&& forall|k: int|
                        0 <= k < rolls.len() ==> !(#[trigger] absorb_run_spec(
                            old(self)@,
                            old(self).target,
                            rolls.take(k),
                        )).absorbed
                    &&& final(self).steps == old(self).steps + rolls.len()
                },
    {
        let ghost start = self@;
        let ghost mut rolls: Seq<u32> = Seq::empty();
        let mut i: u64 = 0;
        while i < max_steps && !self.absorbed
            invariant
                call_requires(*rng, ()),
                *rng == *old(rng),
                i <= max_steps,
                rolls.len() == i,
                draws_from(*old(rng), rolls),
                self.target == old(self).target,
                self@ == absorb_run_spec(start, self.target, rolls),
                absorb_run_fits(*old(rng), start, self.target, max_steps as int),
                forall|k: int|
                    0 <= k < rolls.len() ==> !(#[trigger] absorb_run_spec(
                        start,
                        self.target,
                        rolls.take(k),
                    )).absorbed,
                self.steps == start.walk.steps + rolls.len(),
            decreases max_steps - i,
        {
            let r = rng();
            let delta = step_value((r % 3) as usize);
            assert(absorb_step_fits(absorb_run_spec(start, self.target, rolls), uniform_step_spec(r)));
            proof {
                assert(rolls =~= rolls.take(rolls.len() as int));
            }
            self.step(delta);
            proof {
                lemma_draws_push(*old(rng), rolls, r);
                let next = rolls.push(r);
                assert(next.drop_last() =~= rolls);
                assert forall|k: int| 0 <= k < next.len() implies !(#[trigger] absorb_run_spec(
                    start,
                    self.target,
                    next.take(k),
                )).absorbed by {
                    if k < rolls.len() {
                        assert(next.take(k) =~= rolls.take(k));
                    } else {
                        assert(next.take(k) =~= rolls);
                    }
                }
                rolls = next;
            }
            i = i + 1;
        }
        self.steps
    }
}

/// A step of an absorbing walk that is not yet absorbed moves it by `d`
/// and absorbs it exactly when it lands on the target, from either side;
/// a step of an absorbed walk changes nothing.
pub proof fn lemma_absorb_step_law(s: AbsorbingState, target: i64, d: int)
    requires
        -1 <= d <= 1,
        absorb_step_fits(s, d),
    ensures
        s.absorbed ==> absorb_step_spec(s, target, d) == s,
        !s.absorbed ==> {
            let t = absorb_step_spec(s, target, d);
            &&& t.absorbed <==> t.walk.position == target
            &&& t.walk.position == s.walk.position + d
            &&& t.walk.steps == s.walk.steps + 1
            &&& t.walk.history == s.walk.history.push(t.walk.position)
        },
{
}

/// Once absorbed, no draw changes the walk: the absorbed state is final.
pub proof fn lemma_absorbed_is_final(s: AbsorbingState, target: i64, rolls: Seq<u32>)
    requires
        s.absorbed,
    ensures
        absorb_run_spec(s, target, rolls) == s,
    decreases rolls.len(),
{
    if rolls.len() > 0 {
        lemma_absorbed_is_final(s, target, rolls.drop_last());
    }
}

/// An absorbed walk stands on its target, when it was absorbed by stepping
/// onto it or started there.
pub proof fn lemma_absorbed_at_target(s: AbsorbingState, target: i64, rolls: Seq<u32>)
    requires
        s.absorbed ==> s.walk.position == target,
    ensures
        absorb_run_spec(s, target, rolls).absorbed ==> absorb_run_spec(
            s,
            target,
            rolls,
        ).walk.position == target,
    decreases rolls.len(),
{
    if rolls.len() > 0 {
        lemma_absorbed_at_target(s, target, rolls.drop_last());
    }
}

/// Room for `n` unit steps rules out every overflow over `n` draws,
/// whatever the source returns.
pub proof fn lemma_absorb_run_fits<F: FnMut() -> u32>(rng: F, s: AbsorbingState, target: i64, n: int)
    requires
        has_room(s.walk, n),
    ensures
        absorb_run_fits(rng, s, target, n),
{
    assert forall|rolls: Seq<u32>, r: u32|
        rolls.len() < n && draws_from(rng, rolls) && call_ensures(
            rng,
            (),
            r,
        ) implies #[trigger] absorb_step_fits(
        absorb_run_spec(s, target, rolls),
        uniform_step_spec(r),
    ) by {
        lemma_absorb_run_bounds(s, target, rolls);
    }
}

/// Each draw moves an absorbing walk by at most one unit and one step.
pub proof fn lemma_absorb_run_bounds(s: AbsorbingState, target: i64, rolls: Seq<u32>)
    requires
        has_room(s.walk, rolls.len() as int),
    ensures
        s.walk.position - rolls.len() <= absorb_run_spec(s, target, rolls).walk.position
            <= s.walk.position + rolls.len(),
        absorb_run_spec(s, target, rolls).walk.steps <= s.walk.steps + rolls.len(),
    decreases rolls.len(),
{
    if rolls.len() > 0 {
        lemma_absorb_run_bounds(s, target, rolls.drop_last());
    }
}

} // verus!

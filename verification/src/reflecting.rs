//! A ternary walk with reflecting boundaries.

use vstd::prelude::*;

use crate::common::{
    WalkState, clamp_spec, clamp_ternary, draws_from, in_i64, lemma_draws_push, step_value,
};
use crate::simple::uniform_step_spec;

verus! {

/// Where a walk that has just landed on `p` ends up. With equal bounds the
/// walk has a single place to be and stays on it. Otherwise it is mirrored
/// at `lo` if it went below `lo`, then mirrored at `hi` if it (now) lies
/// above `hi`.
pub open spec fn reflect_spec(p: int, lo: int, hi: int) -> int {
    if lo == hi {
        lo
    } else {
        let p1 = if p < lo {
            lo + (lo - p)
        } else {
            p
        };
        if p1 > hi {
            hi - (p1 - hi)
        } else {
            p1
        }
    }
}

/// Every intermediate value of the reflection of `p` fits in an `i64`.
pub open spec fn reflect_fits(p: int, lo: int, hi: int) -> bool {
    let p1 = if p < lo {
        lo + (lo - p)
    } else {
        p
    };
    lo == hi || {
        &&& in_i64(p)
        &&& p < lo ==> in_i64(lo - p) && in_i64(p1)
        &&& p1 > hi ==> in_i64(p1 - hi) && in_i64(hi - (p1 - hi))
    }
}

/// One step by `d` from state `s` can be taken without overflow.
pub open spec fn reflect_step_fits(s: WalkState, lo: i64, hi: i64, d: int) -> bool {
    &&& reflect_fits(s.position + d, lo as int, hi as int)
    &&& s.steps < u64::MAX
}

/// The state after one step by `d` from `s`, reflected into [lo, hi].
pub open spec fn reflect_step_spec(s: WalkState, lo: i64, hi: i64, d: int) -> WalkState {
    s.moved_to(reflect_spec(s.position + d, lo as int, hi as int) as i64)
}

/// The state after the uniform steps drawn as `rolls`, each reflected.
pub open spec fn reflect_run_spec(s: WalkState, lo: i64, hi: i64, rolls: Seq<u32>) -> WalkState
    decreases rolls.len(),
{
    if rolls.len() == 0 {
        s
    } else {
        reflect_step_spec(
            reflect_run_spec(s, lo, hi, rolls.drop_last()),
            lo,
            hi,
            uniform_step_spec(rolls.last()),
        )
    }
}

/// No sequence of fewer than `n` draws that `rng` can return leads to a
/// step that overflows.
pub open spec fn reflect_run_fits<F: FnMut() -> u32>(
    rng: F,
    s: WalkState,
    lo: i64,
    hi: i64,
    n: int,
) -> bool {
    forall|rolls: Seq<u32>, r: u32|
        rolls.len() < n && draws_from(rng, rolls) && call_ensures(rng, (), r)
            ==> #[trigger] reflect_step_fits(
            reflect_run_spec(s, lo, hi, rolls),
            lo,
            hi,
            uniform_step_spec(r),
        )
}

/// A walk with reflecting boundaries at `lo` and `hi`.
#[derive(Debug, Clone)]
pub struct ReflectingWalk {
    pub position: i64,
    pub steps: u64,
    pub lo: i64,
    pub hi: i64,
    pub history: Vec<i64>,
}

impl View for ReflectingWalk {
    type V = WalkState;

    open spec fn view(&self) -> WalkState {
        WalkState { position: self.position, steps: self.steps, history: self.history@ }
    }
}

impl ReflectingWalk {
    /// A walk between `lo` and `hi`, starting at `start` moved onto the
    /// nearer bound if it lies outside them.
    pub fn new(start: i64, lo: i64, hi: i64) -> (w: Self)
        ensures
            ({
                let s = if start < lo {
                    lo
                } else if start > hi {
                    hi
                } else {
                    start
                };
                w@ == (WalkState { position: s, steps: 0, history: seq![s] })
            }),
            w.lo == lo,
            w.hi == hi,
    {
        let s = if start < lo {
            lo
        } else if start > hi {
            hi
        } else {
            start
        };
        let mut w = ReflectingWalk { position: s, steps: 0, lo, hi, history: Vec::new() };
        w.history.push(s);
        w
    }

    /// Step by `delta` clamped into [-1, 1], then reflect at the boundaries.
    pub fn step(&mut self, delta: i64)
        requires
            reflect_step_fits(old(self)@, old(self).lo, old(self).hi, clamp_spec(delta as int)),
        ensures
            final(self)@ == reflect_step_spec(
                old(self)@,
                old(self).lo,
                old(self).hi,
                clamp_spec(delta as int),
            ),
            final(self).lo == old(self).lo,
            final(self).hi == old(self).hi,
            old(self).lo <= old(self).hi && old(self).lo <= old(self).position <= old(self).hi
                ==> old(self).lo <= final(self).position <= old(self).hi,
            final(self).steps == old(self).steps + 1,
            final(self).history@ == old(self).history@.push(final(self).position),
    {
        proof {
            lemma_reflect_stays_within(
                self.position as int,
                self.lo as int,
                self.hi as int,
                clamp_spec(delta as int),
            );
        }
        let d = clamp_ternary(delta);
        if self.lo == self.hi {
            self.position = self.lo;
        } else {
            self.position = self.position + d;
            if self.position < self.lo {
                self.position = self.lo + (self.lo - self.position);
            }
            if self.position > self.hi {
                self.position = self.hi - (self.position - self.hi);
            }
        }
        self.steps = self.steps + 1;
        self.history.push(self.position);
    }

    /// Run `n` uniform steps, each reflected.
    pub fn run<F: FnMut() -> u32>(&mut self, n: u64, rng: &mut F)
        requires
            call_requires(*old(rng), ()),
            reflect_run_fits(*old(rng), old(self)@, old(self).lo, old(self).hi, n as int),
        ensures
            call_requires(*final(rng), ()),
            exists|rolls: Seq<u32>|
                rolls.len() == n && draws_from(*old(rng), rolls) && final(self)@ == reflect_run_spec(
                    old(self)@,
                    old(self).lo,
                    old(self).hi,
                    rolls,
                ),
            final(self).lo == old(self).lo,
            final(self).hi == old(self).hi,
    {
        let ghost start = self@;
        let ghost mut rolls: Seq<u32> = Seq::empty();
        let mut i: u64 = 0;
        while i < n
            invariant
                call_requires(*rng, ()),
                *rng == *old(rng),
                i <= n,
                rolls.len() == i,
                draws_from(*old(rng), rolls),
                self.lo == old(self).lo,
                self.hi == old(self).hi,
                self@ == reflect_run_spec(start, self.lo, self.hi, rolls),
                reflect_run_fits(*old(rng), start, self.lo, self.hi, n as int),
            decreases n - i,
        {
            let r = rng();
            let delta = step_value((r % 3) as usize);
            assert(reflect_step_fits(
                reflect_run_spec(start, self.lo, self.hi, rolls),
                self.lo,
                self.hi,
                uniform_step_spec(r),
            ));
            self.step(delta);
            proof {
                lemma_draws_push(*old(rng), rolls, r);
                assert(rolls.push(r).drop_last() =~= rolls);
                rolls = rolls.push(r);
            }
            i = i + 1;
        }
    }
}

/// Reflection leaves a position inside [lo, hi] where it is, puts one
/// step below `lo` one step above it and one step above `hi` one step below
/// it (when lo < hi), and with lo == hi always gives `lo`.
pub proof fn lemma_reflect_law(p: int, lo: int, hi: int)
    ensures
        lo == hi ==> reflect_spec(p, lo, hi) == lo,
        lo < hi && lo <= p <= hi ==> reflect_spec(p, lo, hi) == p,
        lo < hi && p == lo - 1 ==> reflect_spec(p, lo, hi) == lo + 1,
        lo < hi && p == hi + 1 ==> reflect_spec(p, lo, hi) == hi - 1,
{
}

/// Inside [lo, hi], with lo <= hi, one step of at most one unit, reflected,
/// stays inside [lo, hi].
pub proof fn lemma_reflect_stays_within(p: int, lo: int, hi: int, d: int)
    requires
        -1 <= d <= 1,
    ensures
        lo <= hi && lo <= p <= hi ==> lo <= reflect_spec(p + d, lo, hi) <= hi,
{
}

/// A walk inside [lo, hi], lo <= hi, stays inside through any draws, and
/// its step count grows by one per draw.
pub proof fn lemma_reflecting_run_stays_within(s: WalkState, lo: i64, hi: i64, rolls: Seq<u32>)
    requires
        lo <= hi,
        lo <= s.position <= hi,
        s.steps + rolls.len() <= u64::MAX,
    ensures
        lo <= reflect_run_spec(s, lo, hi, rolls).position <= hi,
        reflect_run_spec(s, lo, hi, rolls).steps == s.steps + rolls.len(),
    decreases rolls.len(),
{
    if rolls.len() > 0 {
        let prev = reflect_run_spec(s, lo, hi, rolls.drop_last());
        lemma_reflecting_run_stays_within(s, lo, hi, rolls.drop_last());
        lemma_reflect_stays_within(
            prev.position as int,
            lo as int,
            hi as int,
            uniform_step_spec(rolls.last()),
        );
    }
}

/// A walk inside [lo, hi], with lo <= hi and both bounds short of the ends
/// of `i64`, can run `n` steps from any source without overflow while its
/// step count has room.
pub proof fn lemma_reflecting_run_fits<F: FnMut() -> u32>(
    rng: F,
    s: WalkState,
    lo: i64,
    hi: i64,
    n: int,
)
    requires
        i64::MIN < lo <= hi < i64::MAX,
        lo <= s.position <= hi,
        s.steps + n <= u64::MAX,
    ensures
        reflect_run_fits(rng, s, lo, hi, n),
{
    assert forall|rolls: Seq<u32>, r: u32|
        rolls.len() < n && draws_from(rng, rolls) && call_ensures(
            rng,
            (),
            r,
        ) implies #[trigger] reflect_step_fits(
        reflect_run_spec(s, lo, hi, rolls),
        lo,
        hi,
        uniform_step_spec(r),
    ) by {
        lemma_reflecting_run_stays_within(s, lo, hi, rolls);
    }
}

} // verus!

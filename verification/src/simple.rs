//! The simple symmetric walk and the biased (weighted) walk.

use vstd::prelude::*;

use crate::common::{
    WalkState, clamp_spec, clamp_ternary, draws_from, in_i64, lemma_draws_push,
    lemma_moved_keeps_unit_steps, lemma_moved_to_keeps_wf, step_value, step_value_spec,
};

verus! {

/// Room for `n` more steps of at most one unit each, in either direction.
pub open spec fn has_room(s: WalkState, n: int) -> bool {
    &&& i64::MIN + n <= s.position <= i64::MAX - n
    &&& s.steps + n <= u64::MAX
}

/// The step that a uniform draw `r` makes: `r % 3` picks -1, 0 or +1.
pub open spec fn uniform_step_spec(r: u32) -> int {
    step_value_spec((r % 3) as int)
}

/// The uniform step that draw `r` makes from `s` can be taken without overflow.
pub open spec fn uniform_step_fits(s: WalkState, r: u32) -> bool {
    &&& in_i64(s.position + uniform_step_spec(r))
    &&& s.steps < u64::MAX
}

/// The state after the uniform steps drawn as `rolls`, in order.
pub open spec fn uniform_run_spec(s: WalkState, rolls: Seq<u32>) -> WalkState
    decreases rolls.len(),
{
    if rolls.len() == 0 {
        s
    } else {
        uniform_run_spec(s, rolls.drop_last()).moved(uniform_step_spec(rolls.last()))
    }
}

/// No sequence of fewer than `n` draws that `rng` can return leads to a
/// uniform step that overflows.
pub open spec fn uniform_run_fits<F: FnMut() -> u32>(rng: F, s: WalkState, n: int) -> bool {
    forall|rolls: Seq<u32>, r: u32|
        rolls.len() < n && draws_from(rng, rolls) && call_ensures(rng, (), r)
            ==> #[trigger] uniform_step_fits(uniform_run_spec(s, rolls), r)
}

/// A simple random walk where each step adds -1, 0, or +1.
#[derive(Debug, Clone)]
pub struct SimpleTernaryWalk {
    pub position: i64,
    pub steps: u64,
    pub history: Vec<i64>,
}

impl View for SimpleTernaryWalk {
    type V = WalkState;

    open spec fn view(&self) -> WalkState {
        WalkState { position: self.position, steps: self.steps, history: self.history@ }
    }
}

impl SimpleTernaryWalk {
    /// A walk standing at `start`, with no steps taken and `start` as its history.
    pub fn new(start: i64) -> (w: Self)
        ensures
            w@ == (WalkState { position: start, steps: 0, history: seq![start] }),
    {
        let mut w = SimpleTernaryWalk { position: start, steps: 0, history: Vec::new() };
        w.history.push(start);
        w
    }

    /// Take the uniform step that the draw `roll` picks.
    pub fn step_by_roll(&mut self, roll: u32)
        requires
            uniform_step_fits(old(self)@, roll),
        ensures
            final(self)@ == old(self)@.moved(uniform_step_spec(roll)),
            final(self).position == old(self).position + (roll % 3) - 1,
            final(self).steps == old(self).steps + 1,
            final(self).history@ == old(self).history@.push(final(self).position),
    {
        let delta = step_value((roll % 3) as usize);
        self.position = self.position + delta;
        self.steps = self.steps + 1;
        self.history.push(self.position);
    }

    /// Take one uniform random step using the provided RNG.
    pub fn step<F: FnMut() -> u32>(&mut self, rng: &mut F)
        requires
            call_requires(*old(rng), ()),
            forall|r: u32|
                call_ensures(*old(rng), (), r) ==> #[trigger] uniform_step_fits(old(self)@, r),
        ensures
            call_requires(*final(rng), ()),
            exists|r: u32|
                call_ensures(*old(rng), (), r) && final(self)@ == old(self)@.moved(
                    uniform_step_spec(r),
                ),
    {
        let r = rng();
        self.step_by_roll(r);
    }

    /// Take a step with explicit delta, clamped into [-1, 1].
    pub fn step_with(&mut self, delta: i64)
        requires
            i64::MIN <= old(self).position + clamp_spec(delta as int) <= i64::MAX,
            old(self).steps < u64::MAX,
        ensures
            final(self)@ == old(self)@.moved(clamp_spec(delta as int)),
            final(self).position == old(self).position + if delta < -1 {
                -1
            } else if delta > 1 {
                1
            } else {
                delta as int
            },
            final(self).steps == old(self).steps + 1,
            final(self).history@ == old(self).history@.push(final(self).position),
    {
        let d = clamp_ternary(delta);
        self.position = self.position + d;
        self.steps = self.steps + 1;
        self.history.push(self.position);
    }

    /// Run `n` uniform steps.
    pub fn run<F: FnMut() -> u32>(&mut self, n: u64, rng: &mut F)
        requires
            call_requires(*old(rng), ()),
            uniform_run_fits(*old(rng), old(self)@, n as int),
        ensures
            call_requires(*final(rng), ()),
            exists|rolls: Seq<u32>|
                rolls.len() == n && draws_from(*old(rng), rolls) && final(self)@
                    == uniform_run_spec(old(self)@, rolls),
    {
        let ghost start = self@;
        let ghost mut rolls: Seq<u32> = Seq::empty();
        let mut i: u64 = 0;
        while i < n
            invariant
                call_requires(*rng, ()),
                *rng == *old(rng),
                i <= n,
                rolls.len() == i,
                draws_from(*old(rng), rolls),
                self@ == uniform_run_spec(start, rolls),
                uniform_run_fits(*old(rng), start, n as int),
            decreases n - i,
        {
            let r = rng();
            assert(uniform_step_fits(uniform_run_spec(start, rolls), r));
            self.step_by_roll(r);
            proof {
                lemma_draws_push(*old(rng), rolls, r);
                assert(rolls.push(r).drop_last() =~= rolls);
                rolls = rolls.push(r);
            }
            i = i + 1;
        }
    }
}

/// A uniform draw `r` moves the walk by `r % 3 - 1`, so each of -1, 0, +1
/// comes from one residue.
pub proof fn lemma_uniform_step_law(r: u32)
    ensures
        uniform_step_spec(r) == (r % 3) - 1,
{
}

/// Running on the draws `a` and then on the draws `b` is running on `a`
/// followed by `b`.
pub proof fn lemma_uniform_run_concat(s: WalkState, a: Seq<u32>, b: Seq<u32>)
    ensures
        uniform_run_spec(s, a + b) == uniform_run_spec(uniform_run_spec(s, a), b),
    decreases b.len(),
{
    if b.len() == 0 {
        assert(a + b =~= a);
    } else {
        assert((a + b).drop_last() =~= a + b.drop_last());
        lemma_uniform_run_concat(s, a, b.drop_last());
    }
}

/// A uniform run moves at most one unit per draw and counts one step per draw.
pub proof fn lemma_uniform_run_bounds(s: WalkState, rolls: Seq<u32>)
    requires
        has_room(s, rolls.len() as int),
    ensures
        s.position - rolls.len() <= uniform_run_spec(s, rolls).position <= s.position
            + rolls.len(),
        uniform_run_spec(s, rolls).steps == s.steps + rolls.len(),
    decreases rolls.len(),
{
    if rolls.len() > 0 {
        lemma_uniform_run_bounds(s, rolls.drop_last());
    }
}

/// Room for `n` unit steps rules out every overflow over `n` uniform draws,
/// whatever the source returns.
pub proof fn lemma_uniform_run_fits<F: FnMut() -> u32>(rng: F, s: WalkState, n: int)
    requires
        has_room(s, n),
    ensures
        uniform_run_fits(rng, s, n),
{
    assert forall|rolls: Seq<u32>, r: u32|
        rolls.len() < n && draws_from(rng, rolls) && call_ensures(
            rng,
            (),
            r,
        ) implies #[trigger] uniform_step_fits(uniform_run_spec(s, rolls), r) by {
        lemma_uniform_run_bounds(s, rolls);
    }
}

/// `x` capped at `u32::MAX`, as `saturating_add` caps a sum.
pub open spec fn saturate(x: int) -> int {
    if x > u32::MAX {
        u32::MAX as int
    } else {
        x
    }
}

/// Total weight, summed left to right with saturation at `u32::MAX`.
pub open spec fn weight_total_spec(w: [u32; 3]) -> int {
    saturate(saturate(w[0] + w[1]) + w[2])
}

/// The choice index (0 for -1, 1 for 0, 2 for +1) that the raw draw `raw`
/// picks under weights `w`: with no weight at all the neutral step; else
/// `raw` reduced modulo the total and compared against the running sums.
pub open spec fn pick_spec(w: [u32; 3], raw: u32) -> int {
    let t = weight_total_spec(w);
    if t == 0 {
        1
    } else {
        let r = raw % (t as u32);
        if r < w[0] {
            0
        } else if r < w[0] + w[1] {
            1
        } else {
            2
        }
    }
}

/// The draw `raw` reaches the comparison against `w[0] + w[1]` only where
/// that sum fits in a `u32`.
pub open spec fn pick_fits(w: [u32; 3], raw: u32) -> bool {
    let t = weight_total_spec(w);
    t != 0 && raw % (t as u32) >= w[0] ==> w[0] + w[1] <= u32::MAX
}

/// No draw at all reaches an overflowing comparison under weights `w`.
pub open spec fn weights_fit(w: [u32; 3]) -> bool {
    w[0] + w[1] <= u32::MAX || w[0] == u32::MAX
}

/// The step that draw `raw` makes under weights `w`.
pub open spec fn biased_step_spec(w: [u32; 3], raw: u32) -> int {
    step_value_spec(pick_spec(w, raw))
}

/// The state after the weighted steps drawn as `rolls`, in order.
pub open spec fn biased_run_spec(w: [u32; 3], s: WalkState, rolls: Seq<u32>) -> WalkState
    decreases rolls.len(),
{
    if rolls.len() == 0 {
        s
    } else {
        biased_run_spec(w, s, rolls.drop_last()).moved(biased_step_spec(w, rolls.last()))
    }
}

/// The weighted step that draw `raw` makes from `s` can be taken without overflow.
pub open spec fn biased_step_fits(w: [u32; 3], s: WalkState, raw: u32) -> bool {
    &&& pick_fits(w, raw)
    &&& in_i64(s.position + biased_step_spec(w, raw))
    &&& s.steps < u64::MAX
}

/// One weighted step from `s` can be taken without overflow: with no weight
/// the step is neutral and draws nothing; else no draw that `rng` can return
/// overflows.
pub open spec fn biased_step_ok<F: FnMut() -> u32>(rng: F, w: [u32; 3], s: WalkState) -> bool {
    if weight_total_spec(w) == 0 {
        s.steps < u64::MAX
    } else {
        forall|raw: u32| call_ensures(rng, (), raw) ==> #[trigger] biased_step_fits(w, s, raw)
    }
}

/// No sequence of fewer than `n` weighted steps from `s` overflows: with no
/// weight the walk stands still and only counts steps; else no sequence of
/// draws that `rng` can return leads to an overflowing step.
pub open spec fn biased_run_fits<F: FnMut() -> u32>(rng: F, w: [u32; 3], s: WalkState, n: int) -> bool {
    if weight_total_spec(w) == 0 {
        s.steps + n <= u64::MAX
    } else {
        forall|rolls: Seq<u32>, r: u32|
            rolls.len() < n && draws_from(rng, rolls) && call_ensures(rng, (), r)
                ==> #[trigger] biased_step_fits(w, biased_run_spec(w, s, rolls), r)
    }
}

/// Weighted choice among three options for the raw draw `raw`.
/// `weights` = [w_neg, w_zero, w_pos]. Returns 0, 1, or 2.
pub(crate) fn pick_index(weights: [u32; 3], raw: u32) -> (r: usize)
    requires
        pick_fits(weights, raw),
    ensures
        r == pick_spec(weights, raw),
        r < 3,
{
    let total = weights[0].saturating_add(weights[1]).saturating_add(weights[2]);
    if total == 0 {
        return 1;
    }
    let r = raw % total;
    if r < weights[0] {
        0
    } else if r < weights[0] + weights[1] {
        1
    } else {
        2
    }
}

/// Weighted random selection among 3 choices using a source of `u32` draws.
/// With no weight at all it picks the neutral step and draws nothing.
fn weighted_pick<F: FnMut() -> u32>(weights: [u32; 3], rng: &mut F) -> (r: usize)
    requires
        call_requires(*old(rng), ()),
        forall|raw: u32| call_ensures(*old(rng), (), raw) ==> #[trigger] pick_fits(weights, raw),
    ensures
        *final(rng) == *old(rng),
        weight_total_spec(weights) == 0 ==> r == 1,
        weight_total_spec(weights) != 0 ==> exists|raw: u32|
            call_ensures(*old(rng), (), raw) && r == pick_spec(weights, raw),
        r < 3,
{
    let total = weights[0].saturating_add(weights[1]).saturating_add(weights[2]);
    if total == 0 {
        return 1;
    }
    let raw = rng();
    pick_index(weights, raw)
}

/// Weights that fit leave every draw clear of overflow.
pub proof fn lemma_weights_fit(w: [u32; 3], raw: u32)
    requires
        weights_fit(w),
    ensures
        pick_fits(w, raw),
{
    let t = weight_total_spec(w);
    if t != 0 && w[0] + w[1] > u32::MAX {
        assert(w[0] == u32::MAX);
        assert(t == u32::MAX);
        assert(raw % (t as u32) < t);
    }
}

/// Where only one option has weight, every draw picks it; where no option
/// has weight, every draw picks the neutral step.
pub proof fn lemma_single_weight_always_picked(w: [u32; 3], raw: u32, i: int)
    requires
        0 <= i < 3,
        forall|j: int| 0 <= j < 3 && j != i ==> w[j] == 0,
    ensures
        w[i] > 0 ==> pick_spec(w, raw) == i,
        w[i] == 0 ==> pick_spec(w, raw) == 1,
{
    let t = weight_total_spec(w);
    if t != 0 {
        assert(raw % (t as u32) < t);
    }
}

/// A draw below the weight of -1 (modulo the total) steps down, one at or
/// above the sum of the first two weights steps up, and one in between
/// stands still.
pub proof fn lemma_pick_by_running_sums(w: [u32; 3], raw: u32)
    requires
        weight_total_spec(w) != 0,
        w[0] + w[1] + w[2] <= u32::MAX,
    ensures
        ({
            let r = raw % (w[0] + w[1] + w[2]) as u32;
            &&& r < w[0] ==> biased_step_spec(w, raw) == -1
            &&& w[0] <= r < w[0] + w[1] ==> biased_step_spec(w, raw) == 0
            &&& w[0] + w[1] <= r ==> biased_step_spec(w, raw) == 1
        }),
{
}

/// An option of weight zero is never picked, unless all weights are zero
/// (then the neutral step is taken).
pub proof fn lemma_zero_weight_never_picked(w: [u32; 3], raw: u32, i: int)
    requires
        0 <= i < 3,
        w[i] == 0,
        weight_total_spec(w) != 0,
    ensures
        pick_spec(w, raw) != i,
{
    let t = weight_total_spec(w);
    assert(raw % (t as u32) < t);
}

/// A random walk with configurable probabilities for each direction.
/// `weights` = [weight for -1, weight for 0, weight for +1].
#[derive(Debug, Clone)]
pub struct BiasedWalk {
    pub position: i64,
    pub steps: u64,
    pub weights: [u32; 3],
    pub history: Vec<i64>,
}

impl View for BiasedWalk {
    type V = WalkState;

    open spec fn view(&self) -> WalkState {
        WalkState { position: self.position, steps: self.steps, history: self.history@ }
    }
}

impl BiasedWalk {
    /// A walk standing at `start` with the given weights and no steps taken.
    pub fn new(start: i64, weights: [u32; 3]) -> (w: Self)
        ensures
            w@ == (WalkState { position: start, steps: 0, history: seq![start] }),
            w.weights == weights,
    {
        let mut w = BiasedWalk { position: start, steps: 0, weights, history: Vec::new() };
        w.history.push(start);
        w
    }

    /// Take the weighted step that the raw draw `raw` picks.
    pub fn step_by_roll(&mut self, raw: u32)
        requires
            biased_step_fits(old(self).weights, old(self)@, raw),
        ensures
            final(self)@ == old(self)@.moved(biased_step_spec(old(self).weights, raw)),
            final(self).weights == old(self).weights,
            final(self).steps == old(self).steps + 1,
            final(self).history@ == old(self).history@.push(final(self).position),
            -1 <= final(self).position - old(self).position <= 1,
    {
        let idx = pick_index(self.weights, raw);
        self.position = self.position + step_value(idx);
        self.steps = self.steps + 1;
        self.history.push(self.position);
    }

    /// One weighted step, drawing from `rng` unless every weight is zero.
    fn step_from<F: FnMut() -> u32>(&mut self, rng: &mut F) -> (raw: Ghost<u32>)
        requires
            call_requires(*old(rng), ()),
            biased_step_ok(*old(rng), old(self).weights, old(self)@),
        ensures
            *final(rng) == *old(rng),
            weight_total_spec(old(self).weights) != 0 ==> call_ensures(*old(rng), (), raw@),
            final(self)@ == old(self)@.moved(biased_step_spec(old(self).weights, raw@)),
            final(self).weights == old(self).weights,
    {
        assert forall|raw: u32| call_ensures(*old(rng), (), raw) implies #[trigger] pick_fits(
            self.weights,
            raw,
        ) by {
            if weight_total_spec(self.weights) != 0 {
                assert(biased_step_fits(self.weights, old(self)@, raw));
            }
        }
        let idx = weighted_pick(self.weights, rng);
        let ghost raw: u32 = if weight_total_spec(self.weights) == 0 {
            0
        } else {
            choose|raw: u32| call_ensures(*old(rng), (), raw) && idx == pick_spec(self.weights, raw)
        };
        proof {
            if weight_total_spec(self.weights) != 0 {
                assert(biased_step_fits(self.weights, old(self)@, raw));
            }
        }
        self.position = self.position + step_value(idx);
        self.steps = self.steps + 1;
        self.history.push(self.position);
        Ghost(raw)
    }

    /// Take one weighted random step; with no weight at all the step is
    /// neutral and nothing is drawn.
    pub fn step<F: FnMut() -> u32>(&mut self, rng: &mut F)
        requires
            call_requires(*old(rng), ()),
            biased_step_ok(*old(rng), old(self).weights, old(self)@),
        ensures
            call_requires(*final(rng), ()),
            exists|raw: u32|
                (weight_total_spec(old(self).weights) != 0 ==> call_ensures(*old(rng), (), raw))
                    && final(self)@ == old(self)@.moved(biased_step_spec(old(self).weights, raw)),
            final(self).weights == old(self).weights,
    {
        let Ghost(raw) = self.step_from(rng);
    }

    /// Run `n` weighted steps; with no weight at all nothing is drawn.
    pub fn run<F: FnMut() -> u32>(&mut self, n: u64, rng: &mut F)
        requires
            call_requires(*old(rng), ()),
            biased_run_fits(*old(rng), old(self).weights, old(self)@, n as int),
        ensures
            call_requires(*final(rng), ()),
            exists|rolls: Seq<u32>|
                {
                    &&& rolls.len() == n
                    &&& weight_total_spec(old(self).weights) != 0 ==> draws_from(*old(rng), rolls)
                    &&& final(self)@ == biased_run_spec(old(self).weights, old(self)@, rolls)
                },
            final(self).weights == old(self).weights,
    {
        let ghost start = self@;
        let ghost mut rolls: Seq<u32> = Seq::empty();
        let mut i: u64 = 0;
        while i < n
            invariant
                call_requires(*rng, ()),
                *rng == *old(rng),
                i <= n,
                rolls.len() == i,
                weight_total_spec(self.weights) != 0 ==> draws_from(*old(rng), rolls),
                self@ == biased_run_spec(self.weights, start, rolls),
                self.weights == old(self).weights,
                biased_run_fits(*old(rng), self.weights, start, n as int),
            decreases n - i,
        {
            proof {
                if weight_total_spec(self.weights) == 0 {
                    lemma_no_weight_stands_still(self.weights, start, rolls);
                } else {
                    assert forall|raw: u32| call_ensures(*old(rng), (), raw) implies #[trigger] biased_step_fits(
                        self.weights,
                        self@,
                        raw,
                    ) by {
                        assert(biased_step_fits(self.weights, biased_run_spec(self.weights, start, rolls), raw));
                    }
                }
            }
            let Ghost(raw) = self.step_from(rng);
            proof {
                if weight_total_spec(self.weights) != 0 {
                    lemma_draws_push(*old(rng), rolls, raw);
                }
                assert(rolls.push(raw).drop_last() =~= rolls);
                rolls = rolls.push(raw);
            }
            i = i + 1;
        }
    }
}

/// With no weight at all every step is neutral: the walk stands still and
/// counts one step per draw.
pub proof fn lemma_no_weight_stands_still(w: [u32; 3], s: WalkState, rolls: Seq<u32>)
    requires
        weight_total_spec(w) == 0,
        s.steps + rolls.len() <= u64::MAX,
    ensures
        biased_run_spec(w, s, rolls).position == s.position,
        biased_run_spec(w, s, rolls).steps == s.steps + rolls.len(),
    decreases rolls.len(),
{
    if rolls.len() > 0 {
        lemma_no_weight_stands_still(w, s, rolls.drop_last());
    }
}

/// A weighted run moves at most one unit per draw and counts one step per draw.
pub proof fn lemma_biased_run_bounds(w: [u32; 3], s: WalkState, rolls: Seq<u32>)
    requires
        has_room(s, rolls.len() as int),
    ensures
        s.position - rolls.len() <= biased_run_spec(w, s, rolls).position <= s.position
            + rolls.len(),
        biased_run_spec(w, s, rolls).steps == s.steps + rolls.len(),
    decreases rolls.len(),
{
    if rolls.len() > 0 {
        lemma_biased_run_bounds(w, s, rolls.drop_last());
    }
}

/// Weights that fit and room for `n` unit steps rule out every overflow
/// over `n` weighted steps, whatever the source returns.
pub proof fn lemma_biased_run_fits<F: FnMut() -> u32>(rng: F, w: [u32; 3], s: WalkState, n: int)
    requires
        weights_fit(w),
        has_room(s, n),
    ensures
        biased_run_fits(rng, w, s, n),
{
    assert forall|rolls: Seq<u32>, r: u32|
        rolls.len() < n && draws_from(rng, rolls) && call_ensures(
            rng,
            (),
            r,
        ) implies #[trigger] biased_step_fits(w, biased_run_spec(w, s, rolls), r) by {
        lemma_biased_run_bounds(w, s, rolls);
        lemma_weights_fit(w, r);
    }
}

/// A uniform run from a well-formed walk with room for its draws stays
/// well formed, counts one step per draw, keeps the history it started with
/// as a prefix, and moves at most one unit at each of its own steps.
pub proof fn lemma_uniform_run_keeps_history(s: WalkState, rolls: Seq<u32>)
    requires
        s.wf(),
        has_room(s, rolls.len() as int),
    ensures
        uniform_run_spec(s, rolls).wf(),
        uniform_run_spec(s, rolls).unit_steps_from(s.history.len() - 1),
        uniform_run_spec(s, rolls).steps == s.steps + rolls.len(),
        uniform_run_spec(s, rolls).history.len() == s.history.len() + rolls.len(),
        uniform_run_spec(s, rolls).history.take(s.history.len() as int) == s.history,
    decreases rolls.len(),
{
    if rolls.len() > 0 {
        let prev = uniform_run_spec(s, rolls.drop_last());
        lemma_uniform_run_keeps_history(s, rolls.drop_last());
        lemma_uniform_run_bounds(s, rolls.drop_last());
        let d = uniform_step_spec(rolls.last());
        lemma_moved_to_keeps_wf(prev, (prev.position + d) as i64);
        lemma_moved_keeps_unit_steps(prev, d, s.history.len() - 1);
        let next = prev.moved(d);
        assert(next.history.take(s.history.len() as int) =~= prev.history.take(
            s.history.len() as int,
        ));
    }
}

/// A weighted run from a well-formed walk with room for its draws stays
/// well formed, counts one step per draw, keeps the history it started with
/// as a prefix, and moves at most one unit at each of its own steps.
pub proof fn lemma_biased_run_keeps_history(w: [u32; 3], s: WalkState, rolls: Seq<u32>)
    requires
        s.wf(),
        has_room(s, rolls.len() as int),
    ensures
        biased_run_spec(w, s, rolls).wf(),
        biased_run_spec(w, s, rolls).unit_steps_from(s.history.len() - 1),
        biased_run_spec(w, s, rolls).steps == s.steps + rolls.len(),
        biased_run_spec(w, s, rolls).history.len() == s.history.len() + rolls.len(),
        biased_run_spec(w, s, rolls).history.take(s.history.len() as int) == s.history,
    decreases rolls.len(),
{
    if rolls.len() > 0 {
        let prev = biased_run_spec(w, s, rolls.drop_last());
        lemma_biased_run_keeps_history(w, s, rolls.drop_last());
        lemma_biased_run_bounds(w, s, rolls.drop_last());
        let d = biased_step_spec(w, rolls.last());
        lemma_moved_to_keeps_wf(prev, (prev.position + d) as i64);
        lemma_moved_keeps_unit_steps(prev, d, s.history.len() - 1);
        let next = prev.moved(d);
        assert(next.history.take(s.history.len() as int) =~= prev.history.take(
            s.history.len() as int,
        ));
    }
}

} // verus!

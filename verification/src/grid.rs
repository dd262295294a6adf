//! A walker on a row-major grid of cells, addressed by a single cell index,
//! and the distribution of where many such walks end.

use vstd::prelude::*;

verus! {

/// The cell index after one move from `pos` on a grid `w` cells wide.
/// The direction is taken modulo 4: 0 is up (back one row, unless in the
/// first row), 1 is right, 2 is down (one row on), 3 is left (unless at 0).
pub open spec fn grid_step_spec(pos: u32, w: u32, direction: u8) -> u32 {
    let d = direction % 4;
    if d == 0 {
        if pos >= w {
            (pos - w) as u32
        } else {
            pos
        }
    } else if d == 1 {
        (pos + 1) as u32
    } else if d == 2 {
        (pos + w) as u32
    } else if pos > 0 {
        (pos - 1) as u32
    } else {
        pos
    }
}

/// A move from `pos` in `direction` stays within `u32`.
pub open spec fn grid_step_fits(pos: u32, w: u32, direction: u8) -> bool {
    &&& direction % 4 == 1 ==> pos + 1 <= u32::MAX
    &&& direction % 4 == 2 ==> pos + w <= u32::MAX
}

/// The cell index after the moves in `directions`, in order, from `pos`.
pub open spec fn position_after(pos: u32, w: u32, directions: Seq<u8>) -> u32
    decreases directions.len(),
{
    if directions.len() == 0 {
        pos
    } else {
        grid_step_spec(position_after(pos, w, directions.drop_last()), w, directions.last())
    }
}

/// The path of a walk from `start` on a grid `w` cells wide: `start`
/// itself, then the cell index after each move. The walker itself keeps its
/// index as a `u32`, starting from `start as u32`.
pub open spec fn path_spec(start: usize, w: u32, directions: Seq<u8>) -> Seq<usize>
    decreases directions.len(),
{
    if directions.len() == 0 {
        seq![start]
    } else {
        path_spec(start, w, directions.drop_last()).push(
            position_after(start as u32, w, directions) as usize,
        )
    }
}

/// Every draw in `directions` is one that `rng` can return.
pub open spec fn drawn_from<F: FnMut() -> u8>(rng: F, directions: Seq<u8>) -> bool {
    forall|k: int| 0 <= k < directions.len() ==> call_ensures(rng, (), #[trigger] directions[k])
}

/// No sequence of fewer than `n` moves that `rng` can return leads from
/// `pos` to an overflowing move.
pub open spec fn grid_run_fits<F: FnMut() -> u8>(rng: F, pos: u32, w: u32, n: int) -> bool {
    forall|directions: Seq<u8>, d: u8|
        directions.len() < n && drawn_from(rng, directions) && call_ensures(rng, (), d)
            ==> #[trigger] grid_step_fits(position_after(pos, w, directions), w, d)
}

/// A walker on a ternary lattice, addressed by a row-major cell index.
#[derive(Debug, Clone)]
pub struct Walk {
    pub position: u32,
    pub state: i8,
    pub steps: u32,
}

impl Walk {
    /// A walker at cell `start` (kept as a `u32`) in the given state.
    pub fn new(start: usize, state: i8) -> (w: Self)
        ensures
            w.position == start as u32,
            w.state == state,
            w.steps == 0,
    {
        Walk { position: start as u32, state, steps: 0 }
    }

    /// Move one step in a cardinal direction on a grid `width` cells wide.
    /// direction: 0=up, 1=right, 2=down, 3=left (taken modulo 4).
    pub fn step(&mut self, width: usize, direction: u8)
        requires
            grid_step_fits(old(self).position, width as u32, direction),
            old(self).steps < u32::MAX,
        ensures
            final(self).position == grid_step_spec(old(self).position, width as u32, direction),
            final(self).steps == old(self).steps + 1,
            final(self).state == old(self).state,
            direction % 4 == 0 ==> final(self).position == if old(self).position >= width as u32 {
                old(self).position - width as u32
            } else {
                old(self).position as int
            },
            direction % 4 == 1 ==> final(self).position == old(self).position + 1,
            direction % 4 == 2 ==> final(self).position == old(self).position + width as u32,
            direction % 4 == 3 ==> final(self).position == if old(self).position > 0 {
                old(self).position - 1
            } else {
                0
            },
    {
        let w = width as u32;
        let d = direction % 4;
        if d == 0 {
            if self.position >= w {
                self.position = self.position - w;
            }
        } else if d == 1 {
            self.position = self.position + 1;
        } else if d == 2 {
            self.position = self.position + w;
        } else if d == 3 {
            if self.position > 0 {
                self.position = self.position - 1;
            }
        }
        self.steps = self.steps + 1;
    }
}

/// The path of a walk of `steps` moves from `start`, each move drawn from
/// `rng` (which should return a value in 0..4).
pub fn random_walk<F: FnMut() -> u8>(start: usize, steps: u64, width: usize, rng: F) -> (path: Vec<
    usize,
>)
    requires
        call_requires(rng, ()),
        steps <= u32::MAX,
        grid_run_fits(rng, start as u32, width as u32, steps as int),
    ensures
        exists|directions: Seq<u8>|
            {
                &&& directions.len() == steps
                &&& drawn_from(rng, directions)
                &&& path@ == path_spec(start, width as u32, directions)
            },
        path@.len() == steps + 1,
        path@[0] == start,
{
    let mut source = rng;
    random_walk_from(start, steps, width, &mut source)
}

/// `random_walk`, drawing from a borrowed source.
fn random_walk_from<F: FnMut() -> u8>(start: usize, steps: u64, width: usize, rng: &mut F) -> (path: Vec<usize>)
    requires
        call_requires(*old(rng), ()),
        steps <= u32::MAX,
        grid_run_fits(*old(rng), start as u32, width as u32, steps as int),
    ensures
        *final(rng) == *old(rng),
        exists|directions: Seq<u8>|
            {
                &&& directions.len() == steps
                &&& drawn_from(*old(rng), directions)
                &&& path@ == path_spec(start, width as u32, directions)
            },
        path@.len() == steps + 1,
        path@[0] == start,
{
    let mut walk = Walk::new(start, 0);
    let mut path: Vec<usize> = Vec::new();
    path.push(start);
    let ghost mut directions: Seq<u8> = Seq::empty();
    let mut i: u64 = 0;
    while i < steps
        invariant
            call_requires(*rng, ()),
            *rng == *old(rng),
            i <= steps <= u32::MAX,
            directions.len() == i,
            drawn_from(*old(rng), directions),
            walk.steps == i,
            walk.position == position_after(start as u32, width as u32, directions),
            path@ == path_spec(start, width as u32, directions),
            path@.len() == i + 1,
            path@[0] == start,
            grid_run_fits(*old(rng), start as u32, width as u32, steps as int),
        decreases steps - i,
    {
        let d = rng();
        assert(grid_step_fits(position_after(start as u32, width as u32, directions), width as u32, d));
        walk.step(width, d);
        proof {
            let next = directions.push(d);
            assert(next.drop_last() =~= directions);
            assert(drawn_from(*old(rng), next)) by {
                assert forall|k: int| 0 <= k < next.len() implies call_ensures(
                    *old(rng),
                    (),
                    #[trigger] next[k],
                ) by {
                    if k < directions.len() {
                        assert(next[k] == directions[k]);
                    }
                }
            }
            directions = next;
        }
        path.push(walk.position as usize);
        i = i + 1;
    }
    path
}

/// Each move raises a cell index by at most `max(w, 1)`.
pub proof fn lemma_position_after_bound(pos: u32, w: u32, directions: Seq<u8>)
    requires
        pos + directions.len() * (if w > 1 { w as int } else { 1 }) <= u32::MAX,
    ensures
        position_after(pos, w, directions) <= pos + directions.len() * (if w > 1 {
            w as int
        } else {
            1
        }),
    decreases directions.len(),
{
    if directions.len() > 0 {
        let m: int = if w > 1 { w as int } else { 1 };
        let k = directions.len() - 1;
        assert(k * m <= (k + 1) * m) by (nonlinear_arith)
            requires
                m >= 1,
                k >= 0,
        ;
        assert((k + 1) * m == k * m + m) by (nonlinear_arith);
        lemma_position_after_bound(pos, w, directions.drop_last());
    }
}

/// A walk from `pos` with room for `n` moves of `max(w, 1)` cells each
/// never overflows, whatever the source returns.
pub proof fn lemma_grid_run_fits<F: FnMut() -> u8>(rng: F, pos: u32, w: u32, n: int)
    requires
        n >= 0,
        pos + n * (if w > 1 { w as int } else { 1 }) <= u32::MAX,
    ensures
        grid_run_fits(rng, pos, w, n),
{
    let m: int = if w > 1 { w as int } else { 1 };
    assert forall|directions: Seq<u8>, d: u8|
        directions.len() < n && drawn_from(rng, directions) && call_ensures(
            rng,
            (),
            d,
        ) implies #[trigger] grid_step_fits(
        position_after(pos, w, directions),
        w,
        d,
    ) by {
        let k = directions.len() as int;
        assert((k + 1) * m <= n * m) by (nonlinear_arith)
            requires
                m >= 1,
                0 <= k < n,
        ;
        assert((k + 1) * m == k * m + m) by (nonlinear_arith);
        lemma_position_after_bound(pos, w, directions);
    }
}

/// A move depends on its direction only modulo 4: 1 is one cell right, 2 is
/// one row down, 0 is one row up unless in the first row, 3 is one cell left
/// unless at cell 0.
pub proof fn lemma_grid_step_law(pos: u32, w: u32, direction: u8)
    requires
        grid_step_fits(pos, w, direction),
    ensures
        grid_step_spec(pos, w, direction) == grid_step_spec(pos, w, direction % 4),
        direction % 4 == 0 ==> grid_step_spec(pos, w, direction) == if pos >= w {
            pos - w
        } else {
            pos as int
        },
        direction % 4 == 1 ==> grid_step_spec(pos, w, direction) == pos + 1,
        direction % 4 == 2 ==> grid_step_spec(pos, w, direction) == pos + w,
        direction % 4 == 3 ==> grid_step_spec(pos, w, direction) == if pos > 0 {
            pos - 1
        } else {
            0
        },
{
    assert((direction % 4) % 4 == direction % 4);
}

/// Moves up or left never raise the cell index: at the edge of the grid
/// they leave it in place instead of wrapping.
pub proof fn lemma_up_left_stop_at_edge(pos: u32, w: u32, direction: u8)
    requires
        direction % 4 == 0 || direction % 4 == 3,
    ensures
        grid_step_spec(pos, w, direction) <= pos,
{
}

/// A move right is undone by a move left, and a move down by a move up.
pub proof fn lemma_opposite_moves_cancel(pos: u32, w: u32)
    ensures
        pos + 1 <= u32::MAX ==> grid_step_spec(grid_step_spec(pos, w, 1), w, 3) == pos,
        pos + w <= u32::MAX ==> grid_step_spec(grid_step_spec(pos, w, 2), w, 0) == pos,
{
}

/// Where the walks from `starters` end when the `k`-th walk makes the moves
/// in the `k`-th block of `steps` consecutive entries of `draws`.
pub open spec fn block_ends(starters: Seq<usize>, w: u32, steps: int, draws: Seq<u8>) -> Seq<usize> {
    Seq::new(
        starters.len(),
        |k: int| path_spec(starters[k], w, draws.subrange(k * steps, (k + 1) * steps)).last(),
    )
}

/// How many entries of `s` equal `k`.
pub open spec fn count_spec(s: Seq<usize>, k: int) -> int
    decreases s.len(),
{
    if s.len() == 0 {
        0
    } else {
        count_spec(s.drop_last(), k) + if s.last() == k {
            1int
        } else {
            0int
        }
    }
}

/// The histogram of `finals` over the cells `0..size`.
pub open spec fn histogram_spec(finals: Seq<usize>, size: int) -> Seq<usize> {
    Seq::new(size as nat, |k: int| count_spec(finals, k) as usize)
}

/// `s` without its trailing zeros, keeping at least one entry.
pub open spec fn trim_zeros_spec(s: Seq<usize>) -> Seq<usize>
    decreases s.len(),
{
    if s.len() > 1 && s.last() == 0 {
        trim_zeros_spec(s.drop_last())
    } else {
        s
    }
}

/// The histogram size that the walks from `starters` use: the largest
/// `s + steps * width + steps + 10` over the starters, or 100 if there are none.
pub open spec fn histogram_size_spec(starters: Seq<usize>, steps: int, width: int) -> int
    decreases starters.len(),
{
    if starters.len() == 0 {
        100
    } else if starters.len() == 1 {
        starters[0] + steps * width + steps + 10
    } else {
        let rest = histogram_size_spec(starters.drop_last(), steps, width);
        let here = starters.last() + steps * width + steps + 10;
        if here > rest {
            here
        } else {
            rest
        }
    }
}

/// Each starter's bound fits in a `usize`.
pub open spec fn histogram_size_fits(starters: Seq<usize>, steps: int, width: int) -> bool {
    forall|k: int|
        0 <= k < starters.len() ==> #[trigger] starters[k] + steps * width + steps + 10
            <= usize::MAX
}

/// A count never exceeds the length of what is counted.
pub proof fn lemma_count_bound(s: Seq<usize>, k: int)
    ensures
        0 <= count_spec(s, k) <= s.len(),
    decreases s.len(),
{
    if s.len() > 0 {
        lemma_count_bound(s.drop_last(), k);
    }
}

/// Run walks from each starting cell, one after another from the same
/// source, and return the histogram of the cells where they end, with
/// trailing zeros trimmed (at least one entry remains).
pub fn walk_distribution<F: FnMut() -> u8>(
    starters: &[usize],
    steps: u64,
    width: usize,
    rng: F,
) -> (hist: Vec<usize>)
    requires
        call_requires(rng, ()),
        starters@.len() > 0 ==> steps <= u32::MAX,
        forall|k: int|
            0 <= k < starters@.len() ==> grid_run_fits(
                rng,
                #[trigger] starters@[k] as u32,
                width as u32,
                steps as int,
            ),
        histogram_size_fits(starters@, steps as int, width as int),
    ensures
        exists|draws: Seq<u8>|
            {
                &&& draws.len() == starters@.len() * steps
                &&& drawn_from(rng, draws)
                &&& hist@ == trim_zeros_spec(
                    histogram_spec(
                        block_ends(starters@, width as u32, steps as int, draws),
                        histogram_size_spec(starters@, steps as int, width as int),
                    ),
                )
            },
        hist@.len() >= 1,
        hist@.len() == 1 || hist@.last() != 0,
{
    let mut source = rng;
    let n = steps as usize;
    if starters.len() > 0 {
        assert(starters@[0] + steps * width + steps + 10 <= usize::MAX);
    }
    let mut size: usize = 100;
    let mut j: usize = 0;
    while j < starters.len()
        invariant
            j <= starters.len(),
            starters@.len() > 0 ==> n == steps,
            histogram_size_fits(starters@, steps as int, width as int),
            size == histogram_size_spec(starters@.take(j as int), steps as int, width as int),
        decreases starters.len() - j,
    {
        let s = starters[j];
        assert(starters@[j as int] + steps * width + steps + 10 <= usize::MAX);
        assert(n * width <= usize::MAX) by (nonlinear_arith)
            requires
                starters@[j as int] + n * width + n + 10 <= usize::MAX,
                starters@[j as int] >= 0,
                n >= 0,
        ;
        let bound = s + n * width + n + 10;
        assert(starters@.take(j + 1).drop_last() =~= starters@.take(j as int));
        if j == 0 || bound > size {
            size = bound;
        }
        j = j + 1;
    }
    assert(starters@.take(starters.len() as int) =~= starters@);
    proof {
        lemma_histogram_size_positive(starters@, steps as int, width as int);
    }
    let mut hist: Vec<usize> = Vec::new();
    let mut k: usize = 0;
    while k < size
        invariant
            k <= size,
            hist@.len() == k,
            forall|c: int| 0 <= c < k ==> hist@[c] == 0,
        decreases size - k,
    {
        hist.push(0);
        k = k + 1;
    }
    let ghost mut finals: Seq<usize> = Seq::empty();
    let ghost mut draws: Seq<u8> = Seq::empty();
    let ghost st = steps as int;
    proof {
        assert(hist@ =~= histogram_spec(finals, size as int));
    }
    let mut i: usize = 0;
    while i < starters.len()
        invariant
            call_requires(source, ()),
            source == rng,
            i <= starters.len(),
            starters@.len() > 0 ==> steps <= u32::MAX,
            st == steps,
            finals.len() == i,
            draws.len() == i * st,
            drawn_from(rng, draws),
            forall|k: int|
                0 <= k < starters@.len() ==> grid_run_fits(
                    rng,
                    #[trigger] starters@[k] as u32,
                    width as u32,
                    steps as int,
                ),
            forall|k: int|
                0 <= k < i ==> #[trigger] finals[k] == path_spec(
                    starters@[k],
                    width as u32,
                    draws.subrange(k * st, (k + 1) * st),
                ).last(),
            hist@ == histogram_spec(finals, size as int),
            size == histogram_size_spec(starters@, steps as int, width as int),
            size >= 1,
        decreases starters.len() - i,
    {
        let start = starters[i];
        assert(grid_run_fits(rng, starters@[i as int] as u32, width as u32, steps as int));
        let path = random_walk_from(start, steps, width, &mut source);
        let last = path[path.len() - 1];
        let ghost next = finals.push(last);
        proof {
            assert(next.drop_last() =~= finals);
            lemma_count_bound(finals, last as int);
        }
        if last < hist.len() {
            hist[last] = hist[last] + 1;
        }
        proof {
            assert(hist@ =~= histogram_spec(next, size as int));
            let dirs = choose|d: Seq<u8>|
                d.len() == steps && drawn_from(rng, d) && path@ == path_spec(
                    start,
                    width as u32,
                    d,
                );
            let more = draws + dirs;
            assert((i + 1) * st == i * st + st) by (nonlinear_arith);
            assert(drawn_from(rng, more)) by {
                assert forall|c: int| 0 <= c < more.len() implies call_ensures(
                    rng,
                    (),
                    #[trigger] more[c],
                ) by {
                    if c < draws.len() {
                        assert(more[c] == draws[c]);
                    } else {
                        assert(more[c] == dirs[c - draws.len()]);
                    }
                }
            }
            assert forall|k: int| 0 <= k < i + 1 implies #[trigger] next[k] == path_spec(
                starters@[k],
                width as u32,
                more.subrange(k * st, (k + 1) * st),
            ).last() by {
                if k < i {
                    assert(next[k] == finals[k]);
                    assert((k + 1) * st <= i * st) by (nonlinear_arith)
                        requires
                            0 <= k < i,
                            st >= 0,
                    ;
                    assert(k * st >= 0) by (nonlinear_arith)
                        requires
                            0 <= k,
                            st >= 0,
                    ;
                    assert((k + 1) * st == k * st + st) by (nonlinear_arith);
                    assert(more.subrange(k * st, (k + 1) * st) =~= draws.subrange(
                        k * st,
                        (k + 1) * st,
                    ));
                } else {
                    assert(more.subrange(k * st, (k + 1) * st) =~= dirs);
                }
            }
            finals = next;
            draws = more;
        }
        i = i + 1;
    }
    assert(block_ends(starters@, width as u32, steps as int, draws) =~= finals);
    let ghost full = hist@;
    while hist.len() > 1 && hist[hist.len() - 1] == 0
        invariant
            hist@.len() >= 1,
            trim_zeros_spec(hist@) == trim_zeros_spec(full),
        decreases hist.len(),
    {
        hist.pop();
    }
    hist
}

/// The histogram has at least one cell.
pub proof fn lemma_histogram_size_positive(starters: Seq<usize>, steps: int, width: int)
    requires
        steps >= 0,
        width >= 0,
    ensures
        histogram_size_spec(starters, steps, width) >= 10,
    decreases starters.len(),
{
    if starters.len() > 1 {
        lemma_histogram_size_positive(starters.drop_last(), steps, width);
    }
    if starters.len() >= 1 {
        assert(steps * width >= 0) by (nonlinear_arith)
            requires
                steps >= 0,
                width >= 0,
        ;
    }
}

/// Sum of a sequence of counts.
pub open spec fn total_spec(s: Seq<usize>) -> int
    decreases s.len(),
{
    if s.len() == 0 {
        0
    } else {
        total_spec(s.drop_last()) + s.last()
    }
}

/// Changing one entry changes the sum by the difference.
pub proof fn lemma_total_update(s: Seq<usize>, i: int, v: usize)
    requires
        0 <= i < s.len(),
    ensures
        total_spec(s.update(i, v)) == total_spec(s) - s[i] + v,
    decreases s.len(),
{
    let t = s.update(i, v);
    if i < s.len() - 1 {
        assert(t.drop_last() =~= s.drop_last().update(i, v));
        lemma_total_update(s.drop_last(), i, v);
    } else {
        assert(t.drop_last() =~= s.drop_last());
    }
}

/// Trimming trailing zeros keeps the sum.
pub proof fn lemma_trim_keeps_total(s: Seq<usize>)
    ensures
        total_spec(trim_zeros_spec(s)) == total_spec(s),
    decreases s.len(),
{
    if s.len() > 1 && s.last() == 0 {
        lemma_trim_keeps_total(s.drop_last());
    }
}

/// A histogram over `0..size` counts every final below `size` once.
pub proof fn lemma_histogram_total(finals: Seq<usize>, size: int)
    requires
        size >= 0,
        forall|j: int| 0 <= j < finals.len() ==> finals[j] < size,
        finals.len() <= usize::MAX,
    ensures
        total_spec(histogram_spec(finals, size)) == finals.len(),
    decreases finals.len(),
{
    if finals.len() == 0 {
        lemma_total_zero(size);
        assert(histogram_spec(finals, size) =~= Seq::new(size as nat, |k: int| 0usize));
    } else {
        let p = finals.drop_last();
        let x = finals.last() as int;
        lemma_histogram_total(p, size);
        lemma_count_bound(p, x);
        lemma_count_bound(finals, x);
        let hp = histogram_spec(p, size);
        assert(histogram_spec(finals, size) =~= hp.update(x, (hp[x] + 1) as usize)) by {
            assert forall|k: int| 0 <= k < size implies count_spec(finals, k) == count_spec(p, k)
                + if k == x {
                1int
            } else {
                0int
            } by {}
        }
        lemma_total_update(hp, x, (hp[x] + 1) as usize);
    }
}

/// A sequence of zeros sums to zero.
pub proof fn lemma_total_zero(size: int)
    requires
        size >= 0,
    ensures
        total_spec(Seq::new(size as nat, |k: int| 0usize)) == 0,
    decreases size,
{
    if size > 0 {
        lemma_total_zero(size - 1);
        assert(Seq::new(size as nat, |k: int| 0usize).drop_last() =~= Seq::new(
            (size - 1) as nat,
            |k: int| 0usize,
        ));
    }
}

/// The histogram size is at least each starter's own bound.
pub proof fn lemma_histogram_size_bound(starters: Seq<usize>, steps: int, width: int, k: int)
    requires
        0 <= k < starters.len(),
    ensures
        histogram_size_spec(starters, steps, width) >= starters[k] + steps * width + steps + 10,
    decreases starters.len(),
{
    if starters.len() > 1 && k < starters.len() - 1 {
        lemma_histogram_size_bound(starters.drop_last(), steps, width, k);
    }
}

/// A walk ends on its start after no moves, and on `position_after` otherwise.
pub proof fn lemma_path_end(start: usize, w: u32, directions: Seq<u8>)
    ensures
        path_spec(start, w, directions).len() == directions.len() + 1,
        path_spec(start, w, directions)[0] == start,
        path_spec(start, w, directions).last() == if directions.len() == 0 {
            start
        } else {
            position_after(start as u32, w, directions) as usize
        },
    decreases directions.len(),
{
    if directions.len() > 0 {
        lemma_path_end(start, w, directions.drop_last());
    }
}

/// Where every walk has room for its moves (each starter's index plus
/// `steps` moves of `max(width, 1)` cells fits in a `u32`), every walk ends
/// inside the histogram, so the histogram counts each starter exactly once,
/// whatever moves are drawn.
pub proof fn lemma_walk_distribution_total(
    starters: Seq<usize>,
    steps: int,
    width: usize,
    draws: Seq<u8>,
)
    requires
        steps >= 0,
        starters.len() <= usize::MAX,
        draws.len() == starters.len() * steps,
        forall|k: int|
            0 <= k < starters.len() ==> (#[trigger] starters[k] as u32) + steps * (if width as u32
                > 1 {
                width as u32 as int
            } else {
                1
            }) <= u32::MAX,
    ensures
        total_spec(
            trim_zeros_spec(
                histogram_spec(
                    block_ends(starters, width as u32, steps, draws),
                    histogram_size_spec(starters, steps, width as int),
                ),
            ),
        ) == starters.len(),
{
    let size = histogram_size_spec(starters, steps, width as int);
    let finals = block_ends(starters, width as u32, steps, draws);
    assert forall|j: int| 0 <= j < finals.len() implies finals[j] < size by {
        let s = starters[j];
        let w32 = width as u32;
        let m: int = if w32 > 1 { w32 as int } else { 1 };
        assert((j + 1) * steps <= starters.len() * steps) by (nonlinear_arith)
            requires
                0 <= j < starters.len(),
                steps >= 0,
        ;
        assert(j * steps >= 0) by (nonlinear_arith)
            requires
                0 <= j,
                steps >= 0,
        ;
        assert((j + 1) * steps == j * steps + steps) by (nonlinear_arith);
        let dirs = draws.subrange(j * steps, (j + 1) * steps);
        lemma_path_end(s, w32, dirs);
        lemma_histogram_size_bound(starters, steps, width as int, j);
        if steps > 0 {
            lemma_position_after_bound(s as u32, w32, dirs);
            assert(steps * m <= steps * width + steps) by (nonlinear_arith)
                requires
                    steps >= 0,
                    1 <= m <= width + 1,
            ;
            assert((s as u32) <= s);
        }
    }
    lemma_histogram_total(finals, size);
    lemma_trim_keeps_total(histogram_spec(finals, size));
}

} // verus!

//! A walk on a two-dimensional grid of ternary cells.

use vstd::prelude::*;

use std::collections::BTreeMap;

use crate::common::{clamp_spec, clamp_ternary, draws_from, lemma_draws_push};

verus! {

/// The coordinates of entry `i` of row-major grid data `width` cells wide.
pub open spec fn cell_key(i: usize, width: usize) -> (i64, i64) {
    ((i % width) as i64, (i / width) as i64)
}

/// The grid built from row-major `data`: each entry, clamped into [-1, 1],
/// stored under its coordinates; a later entry overwrites an earlier one
/// under the same coordinates.
pub open spec fn grid_spec(data: Seq<i64>, width: usize) -> Map<(i64, i64), i64>
    decreases data.len(),
{
    if data.len() == 0 {
        Map::empty()
    } else {
        grid_spec(data.drop_last(), width).insert(
            cell_key((data.len() - 1) as usize, width),
            clamp_spec(data.last() as int) as i64,
        )
    }
}

/// The value of cell (x, y): what the grid holds there, or 0 off the grid.
pub open spec fn cell_value(grid: Map<(i64, i64), i64>, x: i64, y: i64) -> i64 {
    if grid.contains_key((x, y)) {
        grid[(x, y)]
    } else {
        0
    }
}

/// Abstract state of a spatial walk.
pub struct SpatialState {
    pub x: i64,
    pub y: i64,
    pub steps: u64,
    pub values_read: Seq<i64>,
    pub path: Seq<(i64, i64)>,
}

/// The coordinates after one move from (x, y); the direction is taken
/// modulo 4: 0 is up (y + 1), 1 is right (x + 1), 2 is down (y - 1), 3 is
/// left (x - 1).
pub open spec fn spatial_move_spec(x: i64, y: i64, direction: u8) -> (i64, i64) {
    let d = direction % 4;
    if d == 0 {
        (x, (y + 1) as i64)
    } else if d == 1 {
        ((x + 1) as i64, y)
    } else if d == 2 {
        (x, (y - 1) as i64)
    } else {
        ((x - 1) as i64, y)
    }
}

/// A move depends on its direction only modulo 4: 0 is up (y + 1), 1 is
/// right (x + 1), 2 is down (y - 1), 3 is left (x - 1).
pub proof fn lemma_spatial_move_law(x: i64, y: i64, direction: u8)
    requires
        i64::MIN < x < i64::MAX,
        i64::MIN < y < i64::MAX,
    ensures
        spatial_move_spec(x, y, direction) == spatial_move_spec(x, y, direction % 4),
        direction % 4 == 0 ==> spatial_move_spec(x, y, direction) == (x, (y + 1) as i64),
        direction % 4 == 1 ==> spatial_move_spec(x, y, direction) == ((x + 1) as i64, y),
        direction % 4 == 2 ==> spatial_move_spec(x, y, direction) == (x, (y - 1) as i64),
        direction % 4 == 3 ==> spatial_move_spec(x, y, direction) == ((x - 1) as i64, y),
{
    assert((direction % 4) % 4 == direction % 4);
}

/// A move is undone by the move in the opposite direction (two apart
/// modulo 4), where neither overflows.
pub proof fn lemma_spatial_opposite_moves_cancel(x: i64, y: i64, direction: u8)
    requires
        i64::MIN < x < i64::MAX,
        i64::MIN < y < i64::MAX,
    ensures
        ({
            let (x1, y1) = spatial_move_spec(x, y, direction);
            spatial_move_spec(x1, y1, ((direction % 4 + 2) % 4) as u8)
        }) == (x, y),
{
}

/// One move from `s` in `direction` stays within `i64`.
pub open spec fn spatial_step_fits(s: SpatialState, direction: u8) -> bool {
    let d = direction % 4;
    &&& d == 0 ==> s.y < i64::MAX
    &&& d == 1 ==> s.x < i64::MAX
    &&& d == 2 ==> s.y > i64::MIN
    &&& d == 3 ==> s.x > i64::MIN
    &&& s.steps < u64::MAX
}

/// The state after one move on `grid`: the new cell is appended to the path
/// and its value to the values read.
pub open spec fn spatial_step_spec(s: SpatialState, grid: Map<(i64, i64), i64>, direction: u8) -> SpatialState {
    let (x, y) = spatial_move_spec(s.x, s.y, direction);
    SpatialState {
        x,
        y,
        steps: (s.steps + 1) as u64,
        values_read: s.values_read.push(cell_value(grid, x, y)),
        path: s.path.push((x, y)),
    }
}

/// The state after the moves drawn as `rolls` (each taken modulo 4), in order.
pub open spec fn spatial_run_spec(s: SpatialState, grid: Map<(i64, i64), i64>, rolls: Seq<u32>) -> SpatialState
    decreases rolls.len(),
{
    if rolls.len() == 0 {
        s
    } else {
        spatial_step_spec(
            spatial_run_spec(s, grid, rolls.drop_last()),
            grid,
            (rolls.last() % 4) as u8,
        )
    }
}

/// No sequence of fewer than `n` draws that `rng` can return leads to a
/// move that overflows.
pub open spec fn spatial_run_fits<F: FnMut() -> u32>(
    rng: F,
    s: SpatialState,
    grid: Map<(i64, i64), i64>,
    n: int,
) -> bool {
    forall|rolls: Seq<u32>, r: u32|
        rolls.len() < n && draws_from(rng, rolls) && call_ensures(rng, (), r)
            ==> #[trigger] spatial_step_fits(spatial_run_spec(s, grid, rolls), (r % 4) as u8)
}

/// Room for `n` more moves in every direction.
pub open spec fn spatial_has_room(s: SpatialState, n: int) -> bool {
    &&& i64::MIN + n <= s.x <= i64::MAX - n
    &&& i64::MIN + n <= s.y <= i64::MAX - n
    &&& s.steps + n <= u64::MAX
}

/// The path holds the start and one cell per step, ends where the walker
/// stands, and each value read is the value of the cell at the same place
/// in the path.
pub open spec fn spatial_wf(s: SpatialState, grid: Map<(i64, i64), i64>) -> bool {
    &&& s.path.len() == s.steps + 1
    &&& s.values_read.len() == s.path.len()
    &&& s.path.last() == (s.x, s.y)
    &&& forall|i: int|
        0 <= i < s.path.len() ==> s.values_read[i] == cell_value(
            grid,
            (#[trigger] s.path[i]).0,
            s.path[i].1,
        )
}

/// A walk on a 2D ternary grid. Each grid cell holds a ternary value
/// {-1, 0, +1}. The walker moves in 2D (up/down/left/right) and reads the
/// grid value at each step.
#[derive(Debug, Clone)]
pub struct SpatialTernaryWalk {
    pub x: i64,
    pub y: i64,
    pub steps: u64,
    pub values_read: Vec<i64>,
    pub path: Vec<(i64, i64)>,
    grid: BTreeMap<(i64, i64), i64>,
}

/// The abstract state holds the walker's public fields, the vectors by
/// their contents.
impl View for SpatialTernaryWalk {
    type V = SpatialState;

    closed spec fn view(&self) -> SpatialState {
        SpatialState {
            x: self.x,
            y: self.y,
            steps: self.steps,
            values_read: self.values_read@,
            path: self.path@,
        }
    }
}

impl SpatialTernaryWalk {
    /// The grid the walker reads from.
    pub closed spec fn grid(&self) -> Map<(i64, i64), i64> {
        self.grid@
    }

    /// Create a walk on the given grid, a flat slice of values in row-major
    /// order `width` cells wide, starting at (start_x, start_y).
    pub fn new(width: usize, height: usize, grid_data: &[i64], start_x: i64, start_y: i64) -> (w: Self)
        requires
            width > 0 || grid_data@.len() == 0,
        ensures
            w.grid() == grid_spec(grid_data@, width),
            w@ == (SpatialState {
                x: start_x,
                y: start_y,
                steps: 0,
                values_read: seq![cell_value(grid_spec(grid_data@, width), start_x, start_y)],
                path: seq![(start_x, start_y)],
            }),
    {
        let mut grid: BTreeMap<(i64, i64), i64> = BTreeMap::new();
        let mut i: usize = 0;
        while i < grid_data.len()
            invariant
                i <= grid_data.len(),
                width > 0 || grid_data@.len() == 0,
                grid@ == grid_spec(grid_data@.take(i as int), width),
            decreases grid_data.len() - i,
        {
            let v = grid_data[i];
            let gy = i / width;
            let gx = i % width;
            grid.insert((gx as i64, gy as i64), clamp_ternary(v));
            assert(grid_data@.take(i + 1).drop_last() =~= grid_data@.take(i as int));
            i = i + 1;
        }
        assert(grid_data@.take(grid_data.len() as int) =~= grid_data@);
        let _ = height;
        let mut w = SpatialTernaryWalk {
            x: start_x,
            y: start_y,
            steps: 0,
            values_read: Vec::new(),
            path: Vec::new(),
            grid,
        };
        w.path.push((start_x, start_y));
        let v = w.read_grid();
        w.values_read.push(v);
        w
    }

    /// The value of the cell the walker stands on (0 off the grid).
    fn read_grid(&self) -> (v: i64)
        ensures
            v == cell_value(self.grid(), self.x, self.y),
    {
        match self.grid.get(&(self.x, self.y)) {
            Some(v) => *v,
            None => 0,
        }
    }

    /// Move: direction 0=up, 1=right, 2=down, 3=left (taken modulo 4).
    pub fn step(&mut self, direction: u8)
        requires
            spatial_step_fits(old(self)@, direction),
        ensures
            final(self)@ == spatial_step_spec(old(self)@, old(self).grid(), direction),
            final(self).grid() == old(self).grid(),
            direction % 4 == 0 ==> final(self)@.x == old(self)@.x && final(self)@.y == old(self)@.y
                + 1,
            direction % 4 == 1 ==> final(self)@.x == old(self)@.x + 1 && final(self)@.y == old(self)@.y,
            direction % 4 == 2 ==> final(self)@.x == old(self)@.x && final(self)@.y == old(self)@.y
                - 1,
            direction % 4 == 3 ==> final(self)@.x == old(self)@.x - 1 && final(self)@.y == old(self)@.y,
            final(self)@.steps == old(self)@.steps + 1,
            final(self)@.path == old(self)@.path.push((final(self)@.x, final(self)@.y)),
            final(self)@.values_read == old(self)@.values_read.push(
                cell_value(old(self).grid(), final(self)@.x, final(self)@.y),
            ),
    {
        let d = direction % 4;
        if d == 0 {
            self.y = self.y + 1;
        } else if d == 1 {
            self.x = self.x + 1;
        } else if d == 2 {
            self.y = self.y - 1;
        } else if d == 3 {
            self.x = self.x - 1;
        }
        self.steps = self.steps + 1;
        self.path.push((self.x, self.y));
        let v = self.read_grid();
        self.values_read.push(v);
    }

    /// Run `n` steps, each direction drawn from `rng` modulo 4.
    pub fn run<F: FnMut() -> u32>(&mut self, n: u64, rng: &mut F)
        requires
            call_requires(*old(rng), ()),
            spatial_run_fits(*old(rng), old(self)@, old(self).grid(), n as int),
        ensures
            call_requires(*final(rng), ()),
            exists|rolls: Seq<u32>|
                rolls.len() == n && draws_from(*old(rng), rolls) && final(self)@ == spatial_run_spec(
                    old(self)@,
                    old(self).grid(),
                    rolls,
                ),
            final(self).grid() == old(self).grid(),
            final(self)@.steps == old(self)@.steps + n,
            final(self)@.path.len() == old(self)@.path.len() + n,
            final(self)@.values_read.len() == old(self)@.values_read.len() + n,
    {
        let ghost start = self@;
        let ghost mut rolls: Seq<u32> = Seq::empty();
        let mut i: u64 = 0;
        while i < n
            invariant
                call_requires(*rng, ()),
                *rng == *old(rng),
                i <= n,
                rolls.len() == i,
                draws_from(*old(rng), rolls),
                self.grid() == old(self).grid(),
                self@ == spatial_run_spec(start, self.grid(), rolls),
                spatial_run_fits(*old(rng), start, self.grid(), n as int),
                self@.steps == start.steps + i,
                self@.path.len() == start.path.len() + i,
                self@.values_read.len() == start.values_read.len() + i,
            decreases n - i,
        {
            let r = rng();
            let dir = (r % 4) as u8;
            assert(spatial_step_fits(spatial_run_spec(start, self.grid(), rolls), dir));
            self.step(dir);
            proof {
                lemma_draws_push(*old(rng), rolls, r);
                let next = rolls.push(r);
                assert(next.drop_last() =~= rolls);
                rolls = next;
            }
            i = i + 1;
        }
    }
}

/// A walk with room for `n` moves in every direction cannot overflow over
/// `n` moves, whatever the source returns.
pub proof fn lemma_spatial_run_fits<F: FnMut() -> u32>(
    rng: F,
    s: SpatialState,
    grid: Map<(i64, i64), i64>,
    n: int,
)
    requires
        spatial_has_room(s, n),
    ensures
        spatial_run_fits(rng, s, grid, n),
{
    assert forall|rolls: Seq<u32>, r: u32|
        rolls.len() < n && draws_from(rng, rolls) && call_ensures(
            rng,
            (),
            r,
        ) implies #[trigger] spatial_step_fits(spatial_run_spec(s, grid, rolls), (r % 4) as u8) by {
        lemma_spatial_run_bounds(s, grid, rolls);
    }
}

/// Each move shifts a coordinate by at most one and counts one step.
pub proof fn lemma_spatial_run_bounds(s: SpatialState, grid: Map<(i64, i64), i64>, rolls: Seq<u32>)
    requires
        spatial_has_room(s, rolls.len() as int),
    ensures
        s.x - rolls.len() <= spatial_run_spec(s, grid, rolls).x <= s.x + rolls.len(),
        s.y - rolls.len() <= spatial_run_spec(s, grid, rolls).y <= s.y + rolls.len(),
        spatial_run_spec(s, grid, rolls).steps == s.steps + rolls.len(),
    decreases rolls.len(),
{
    if rolls.len() > 0 {
        lemma_spatial_run_bounds(s, grid, rolls.drop_last());
    }
}

/// A move keeps the walk well formed: each value read is the value of the
/// cell at the same place in the path.
pub proof fn lemma_spatial_step_wf(s: SpatialState, grid: Map<(i64, i64), i64>, direction: u8)
    requires
        spatial_wf(s, grid),
        s.steps < u64::MAX,
    ensures
        spatial_wf(spatial_step_spec(s, grid, direction), grid),
{
    let t = spatial_step_spec(s, grid, direction);
    assert forall|i: int| 0 <= i < t.path.len() implies t.values_read[i] == cell_value(
        grid,
        (#[trigger] t.path[i]).0,
        t.path[i].1,
    ) by {
        if i < s.path.len() {
            assert(t.path[i] == s.path[i]);
        }
    }
}


/// Distinct entries of grid data lie under distinct coordinates.
pub proof fn lemma_cell_keys_distinct(i: usize, j: usize, width: usize)
    requires
        width > 0,
        i < j <= i64::MAX,
    ensures
        cell_key(i, width) != cell_key(j, width),
{
    let w = width as int;
    vstd::arithmetic::div_mod::lemma_fundamental_div_mod(i as int, w);
    vstd::arithmetic::div_mod::lemma_fundamental_div_mod(j as int, w);
    vstd::arithmetic::div_mod::lemma_div_pos_is_pos(i as int, w);
    vstd::arithmetic::div_mod::lemma_div_is_ordered_by_denominator(i as int, 1, w);
    vstd::arithmetic::div_mod::lemma_div_is_ordered_by_denominator(j as int, 1, w);
    vstd::arithmetic::div_mod::lemma_mod_bound(i as int, w);
    vstd::arithmetic::div_mod::lemma_mod_bound(j as int, w);
    if cell_key(i, width) == cell_key(j, width) {
        assert((i % width) as int == (j % width) as int);
        assert((i / width) as int == (j / width) as int);
        assert(false);
    }
}

/// Each entry of grid data (a slice of at most `i64::MAX` entries, a
/// positive width)
/// is stored, clamped into [-1, 1], under its own coordinates: the walker
/// reads it at column `i % width`, row `i / width`.
pub proof fn lemma_grid_cell(data: Seq<i64>, width: usize, i: int)
    requires
        width > 0,
        0 <= i < data.len(),
        data.len() <= i64::MAX,
        data.len() <= usize::MAX,
    ensures
        grid_spec(data, width).contains_key(cell_key(i as usize, width)),
        grid_spec(data, width)[cell_key(i as usize, width)] == clamp_spec(data[i] as int),
        cell_value(
            grid_spec(data, width),
            cell_key(i as usize, width).0,
            cell_key(i as usize, width).1,
        ) == clamp_spec(data[i] as int),
    decreases data.len(),
{
    let last = data.len() - 1;
    if i < last {
        lemma_grid_cell(data.drop_last(), width, i);
        lemma_cell_keys_distinct(i as usize, last as usize, width);
    }
}

} // verus!

//! The obstacle scheduler: from the initial obstacle list it precomputes,
//! for every time step of one full cycle, the set of cells occupied by at
//! least one obstacle.  The cycle length is the least common multiple of
//! the interior dimensions, after which the whole configuration repeats.

use vstd::prelude::*;

verus! {

use crate::grid::{Blizzard, Coord, Direction, Grid, SearchError};
use crate::numbers::{lcm, lcm_nat};
use vstd::arithmetic::div_mod::{
    lemma_fundamental_div_mod, lemma_fundamental_div_mod_converse_mod, lemma_mod_multiples_vanish,
};
use vstd::pervasive::VecAdditionalExecFns;

/// The row of an obstacle at time `t`: obstacles moving vertically advance
/// one interior row per step and wrap around the interior, the others keep
/// their row.
pub open spec fn bliz_row_at(b: Blizzard, t: nat, rows: int) -> int {
    let m = rows - 2;
    match b.dir {
        Direction::Up => 1 + ((b.pos.row - 1 - t) % m),
        Direction::Down => 1 + ((b.pos.row - 1 + t) % m),
        Direction::Left => b.pos.row as int,
        Direction::Right => b.pos.row as int,
    }
}

/// The column of an obstacle at time `t`, wrapping over the interior
/// columns for the horizontally moving ones.
pub open spec fn bliz_col_at(b: Blizzard, t: nat, cols: int) -> int {
    let m = cols - 2;
    match b.dir {
        Direction::Left => 1 + ((b.pos.col - 1 - t) % m),
        Direction::Right => 1 + ((b.pos.col - 1 + t) % m),
        Direction::Up => b.pos.col as int,
        Direction::Down => b.pos.col as int,
    }
}

/// Whether some obstacle of `blizzards` sits on cell `(r, c)` at time `t`.
pub open spec fn occupied_at(
    blizzards: Seq<Blizzard>,
    t: nat,
    rows: int,
    cols: int,
    r: int,
    c: int,
) -> bool {
    exists|j: int|
        0 <= j < blizzards.len() && #[trigger] bliz_row_at(blizzards[j], t, rows) == r
            && bliz_col_at(blizzards[j], t, cols) == c
}

/// One occupancy table per time step of a full cycle.
pub struct Schedule {
    pub cycle: usize,
    pub maps: Vec<Vec<Vec<bool>>>,
}

impl Schedule {
    /// The schedule holds one full `rows` x `cols` table per step of a
    /// positive cycle.
    pub open spec fn wf(self, rows: int, cols: int) -> bool {
        &&& self.cycle >= 1
        &&& self.maps@.len() == self.cycle
        &&& forall|t: int|
            0 <= t < self.cycle ==> (#[trigger] self.maps@[t])@.len() == rows
        &&& forall|t: int, r: int|
            0 <= t < self.cycle && 0 <= r < rows ==> (#[trigger] self.maps@[t]@[r])@.len() == cols
    }

    /// The recorded occupancy of cell `(r, c)` at absolute time `t`: times
    /// beyond the cycle map into it by modulo.
    pub open spec fn occ(self, t: nat, r: int, c: int) -> bool {
        self.maps@[t as int % self.cycle as int]@[r]@[c]
    }

    /// Looks up the recorded occupancy of cell `p` at absolute time `t`.
    pub fn occ_at(&self, t: usize, p: Coord, rows: usize, cols: usize) -> (b: bool)
        requires
            self.wf(rows as int, cols as int),
            p.row < rows,
            p.col < cols,
        ensures
            b == self.occ(t as nat, p.row as int, p.col as int),
    {
        let tau = t % self.cycle;
        self.maps[tau][p.row][p.col]
    }

    /// The schedule records, for every time step of the cycle, exactly the
    /// cells occupied by some obstacle of `blizzards`.
    pub open spec fn consistent_with(
        self,
        blizzards: Seq<Blizzard>,
        rows: int,
        cols: int,
    ) -> bool {
        forall|t: int, r: int, c: int|
            0 <= t < self.cycle && 0 <= r < rows && 0 <= c < cols
                ==> #[trigger] self.maps@[t]@[r]@[c] == occupied_at(
                blizzards,
                t as nat,
                rows,
                cols,
                r,
                c,
            )
    }
}

/// Adding any multiple of `m` to the dividend leaves a remainder by `m`
/// unchanged.
proof fn lemma_mod_shift_multiple(x: int, mult: int, m: int)
    requires
        m > 0,
        mult % m == 0,
    ensures
        (x + mult) % m == x % m,
        (x - mult) % m == x % m,
{
    lemma_fundamental_div_mod(mult, m);
    let k = mult / m;
    lemma_mod_multiples_vanish(k, x, m);
    assert(m * k + x == x + mult);
    lemma_mod_multiples_vanish(-k, x, m);
    assert(m * (-k) + x == x - mult) by (nonlinear_arith)
        requires
            mult == m * k,
    {}
}

/// Periodicity invariant: an obstacle's position repeats after any
/// multiple of the cycle, in particular after the least common multiple of
/// the interior dimensions.
pub proof fn lemma_blizzard_periodic(b: Blizzard, t: nat, cycle: nat, rows: int, cols: int)
    requires
        rows >= 3,
        cols >= 3,
        cycle as int % (rows - 2) == 0,
        cycle as int % (cols - 2) == 0,
    ensures
        bliz_row_at(b, t + cycle, rows) == bliz_row_at(b, t, rows),
        bliz_col_at(b, t + cycle, cols) == bliz_col_at(b, t, cols),
{
    let x_r = b.pos.row - 1;
    let x_c = b.pos.col - 1;
    lemma_mod_shift_multiple(x_r + t, cycle as int, rows - 2);
    lemma_mod_shift_multiple(x_r - t, cycle as int, rows - 2);
    lemma_mod_shift_multiple(x_c + t, cycle as int, cols - 2);
    lemma_mod_shift_multiple(x_c - t, cycle as int, cols - 2);
}

/// A time step beyond the cycle sees the same obstacle positions as its
/// residue: the position at `t` equals the position at `t % cycle`.
pub proof fn lemma_blizzard_position_mod(b: Blizzard, t: nat, cycle: nat, rows: int, cols: int)
    requires
        rows >= 3,
        cols >= 3,
        cycle >= 1,
        cycle as int % (rows - 2) == 0,
        cycle as int % (cols - 2) == 0,
    ensures
        bliz_row_at(b, t, rows) == bliz_row_at(b, (t as int % cycle as int) as nat, rows),
        bliz_col_at(b, t, cols) == bliz_col_at(b, (t as int % cycle as int) as nat, cols),
    decreases t,
{
    if t >= cycle {
        lemma_blizzard_periodic(b, (t - cycle) as nat, cycle, rows, cols);
        lemma_blizzard_position_mod(b, (t - cycle) as nat, cycle, rows, cols);
        lemma_mod_shift_multiple(t as int, cycle as int, cycle as int);
        assert(cycle as int % cycle as int == 0) by {
            lemma_fundamental_div_mod_converse_mod(cycle as int, cycle as int, 1, 0);
        }
        assert((t - cycle) as int % cycle as int == t as int % cycle as int) by {
            lemma_mod_shift_multiple(t - cycle, cycle as int, cycle as int);
        }
    } else {
        vstd::arithmetic::div_mod::lemma_small_mod(t, cycle);
    }
}

/// Occupancy consistency for all times: a schedule that records one full
/// cycle correctly reports the occupancy of every absolute time step.
pub proof fn lemma_schedule_occ(
    s: Schedule,
    blizzards: Seq<Blizzard>,
    t: nat,
    rows: int,
    cols: int,
    r: int,
    c: int,
)
    requires
        rows >= 3,
        cols >= 3,
        s.wf(rows, cols),
        s.cycle as int % (rows - 2) == 0,
        s.cycle as int % (cols - 2) == 0,
        s.consistent_with(blizzards, rows, cols),
        0 <= r < rows,
        0 <= c < cols,
    ensures
        s.occ(t, r, c) == occupied_at(blizzards, t, rows, cols, r, c),
{
    let tm = (t as int % s.cycle as int) as nat;
    assert(0 <= t as int % (s.cycle as int) && (t as int % (s.cycle as int)) < s.cycle);
    assert(s.maps@[tm as int]@[r]@[c] == occupied_at(blizzards, tm, rows, cols, r, c));
    if occupied_at(blizzards, t, rows, cols, r, c) {
        let j = choose|j: int|
            0 <= j < blizzards.len() && #[trigger] bliz_row_at(blizzards[j], t, rows) == r
                && bliz_col_at(blizzards[j], t, cols) == c;
        lemma_blizzard_position_mod(blizzards[j], t, s.cycle as nat, rows, cols);
        assert(bliz_row_at(blizzards[j], tm, rows) == r && bliz_col_at(blizzards[j], tm, cols)
            == c);
        assert(occupied_at(blizzards, tm, rows, cols, r, c));
    }
    if occupied_at(blizzards, tm, rows, cols, r, c) {
        let j = choose|j: int|
            0 <= j < blizzards.len() && #[trigger] bliz_row_at(blizzards[j], tm, rows) == r
                && bliz_col_at(blizzards[j], tm, cols) == c;
        lemma_blizzard_position_mod(blizzards[j], t, s.cycle as nat, rows, cols);
        assert(bliz_row_at(blizzards[j], t, rows) == r && bliz_col_at(blizzards[j], t, cols) == c);
        assert(occupied_at(blizzards, t, rows, cols, r, c));
    }
}

/// A vector of `n` `false` entries.
pub(crate) fn falses(n: usize) -> (r: Vec<bool>)
    ensures
        r@.len() == n,
        forall|i: int| 0 <= i < n ==> !(#[trigger] r@[i]),
{
    let mut v: Vec<bool> = Vec::new();
    let mut i: usize = 0;
    while i < n
        invariant
            i <= n,
            v@.len() == i,
            forall|k: int| 0 <= k < i ==> !(#[trigger] v@[k]),
        decreases n - i,
    {
        v.push(false);
        i = i + 1;
    }
    v
}

/// One step of obstacle motion: advance one cell in the obstacle's
/// direction and wrap at the interior boundary.
fn bliz_step(p: Coord, dir: Direction, rows: usize, cols: usize) -> (q: Coord)
    requires
        rows >= 3,
        cols >= 3,
        1 <= p.row < rows - 1,
        1 <= p.col < cols - 1,
    ensures
        q.row as int == spec_step_row(p.row as int, dir, rows as int),
        q.col as int == spec_step_col(p.col as int, dir, cols as int),
{
    match dir {
        Direction::Up => Coord {
            row: if p.row == 1 { rows - 2 } else { p.row - 1 },
            col: p.col,
        },
        Direction::Down => Coord {
            row: if p.row == rows - 2 { 1 } else { p.row + 1 },
            col: p.col,
        },
        Direction::Left => Coord {
            row: p.row,
            col: if p.col == 1 { cols - 2 } else { p.col - 1 },
        },
        Direction::Right => Coord {
            row: p.row,
            col: if p.col == cols - 2 { 1 } else { p.col + 1 },
        },
    }
}

/// The row after one step of motion.
pub open spec fn spec_step_row(r: int, dir: Direction, rows: int) -> int {
    match dir {
        Direction::Up => if r == 1 { rows - 2 } else { r - 1 },
        Direction::Down => if r == rows - 2 { 1 } else { r + 1 },
        Direction::Left => r,
        Direction::Right => r,
    }
}

/// The column after one step of motion.
pub open spec fn spec_step_col(c: int, dir: Direction, cols: int) -> int {
    match dir {
        Direction::Left => if c == 1 { cols - 2 } else { c - 1 },
        Direction::Right => if c == cols - 2 { 1 } else { c + 1 },
        Direction::Up => c,
        Direction::Down => c,
    }
}

/// An obstacle that starts in the interior stays in the interior.
pub proof fn lemma_bliz_in_interior(b: Blizzard, t: nat, rows: int, cols: int)
    requires
        rows >= 3,
        cols >= 3,
        1 <= b.pos.row < rows - 1,
        1 <= b.pos.col < cols - 1,
    ensures
        1 <= bliz_row_at(b, t, rows) < rows - 1,
        1 <= bliz_col_at(b, t, cols) < cols - 1,
{
}

/// At time zero an obstacle sits at its initial coordinate.
proof fn lemma_bliz_at_zero(b: Blizzard, rows: int, cols: int)
    requires
        rows >= 3,
        cols >= 3,
        1 <= b.pos.row < rows - 1,
        1 <= b.pos.col < cols - 1,
    ensures
        bliz_row_at(b, 0, rows) == b.pos.row,
        bliz_col_at(b, 0, cols) == b.pos.col,
{
    vstd::arithmetic::div_mod::lemma_small_mod((b.pos.row - 1) as nat, (rows - 2) as nat);
    vstd::arithmetic::div_mod::lemma_small_mod((b.pos.col - 1) as nat, (cols - 2) as nat);
}

/// Incrementing the time moves the position by exactly one wrapped step.
proof fn lemma_wrap_increment(x: int, t: nat, m: int)
    requires
        m >= 1,
        0 <= x < m,
    ensures
        (x + (t + 1)) % m == (if (x + t) % m == m - 1 { 0int } else { (x + t) % m + 1 }),
        (x - (t + 1)) % m == (if (x - t) % m == 0 { m - 1 } else { (x - t) % m - 1 }),
{
    lemma_fundamental_div_mod(x + t, m);
    let q1 = (x + t) / m;
    let k1 = (x + t) % m;
    if k1 == m - 1 {
        assert(x + t + 1 == (q1 + 1) * m + 0) by (nonlinear_arith)
            requires
                x + t == m * q1 + k1,
                k1 == m - 1,
        {}
        lemma_fundamental_div_mod_converse_mod(x + t + 1, m, q1 + 1, 0);
    } else {
        assert(x + t + 1 == q1 * m + (k1 + 1)) by (nonlinear_arith)
            requires
                x + t == m * q1 + k1,
        {}
        lemma_fundamental_div_mod_converse_mod(x + t + 1, m, q1, k1 + 1);
    }
    lemma_fundamental_div_mod(x - t, m);
    let q2 = (x - t) / m;
    let k2 = (x - t) % m;
    if k2 == 0 {
        assert(x - t - 1 == (q2 - 1) * m + (m - 1)) by (nonlinear_arith)
            requires
                x - t == m * q2 + k2,
                k2 == 0,
        {}
        lemma_fundamental_div_mod_converse_mod(x - t - 1, m, q2 - 1, m - 1);
    } else {
        assert(x - t - 1 == q2 * m + (k2 - 1)) by (nonlinear_arith)
            requires
                x - t == m * q2 + k2,
        {}
        lemma_fundamental_div_mod_converse_mod(x - t - 1, m, q2, k2 - 1);
    }
}

/// One wrapped step takes the position at time `t` to the position at
/// time `t + 1`.
proof fn lemma_step_advances(b: Blizzard, t: nat, rows: int, cols: int)
    requires
        rows >= 3,
        cols >= 3,
        1 <= b.pos.row < rows - 1,
        1 <= b.pos.col < cols - 1,
    ensures
        bliz_row_at(b, t + 1, rows) == spec_step_row(bliz_row_at(b, t, rows), b.dir, rows),
        bliz_col_at(b, t + 1, cols) == spec_step_col(bliz_col_at(b, t, cols), b.dir, cols),
{
    lemma_wrap_increment(b.pos.row - 1, t, rows - 2);
    lemma_wrap_increment(b.pos.col - 1, t, cols - 2);
}

/// Builds the occupancy schedule for one full cycle.
///
/// Fails with `InvalidGrid` exactly when the interior is empty in one
/// dimension, and with `OutOfBoundsCoordinate` exactly when some obstacle
/// does not lie in the interior.  On success the schedule's cycle is the
/// least common multiple of the interior dimensions and its tables record
/// exactly the obstacle occupancy of every step of the cycle.
pub fn build_schedule(grid: &Grid, blizzards: &Vec<Blizzard>) -> (res: Result<
    Schedule,
    SearchError,
>)
    requires
        grid.rows * grid.cols <= usize::MAX,
    ensures
        (res matches Err(SearchError::InvalidGrid)) <==> (grid.rows < 3 || grid.cols < 3),
        (res matches Err(SearchError::OutOfBoundsCoordinate)) <==> (grid.rows >= 3 && grid.cols
            >= 3 && exists|j: int|
            0 <= j < blizzards@.len() && !(1 <= (#[trigger] blizzards@[j]).pos.row
                < grid.rows - 1 && 1 <= blizzards@[j].pos.col < grid.cols - 1)),
        res matches Ok(s) ==> {
            &&& grid.rows >= 3
            &&& grid.cols >= 3
            &&& s.wf(grid.rows as int, grid.cols as int)
            &&& s.cycle == lcm_nat((grid.rows - 2) as nat, (grid.cols - 2) as nat)
            &&& s.cycle as int % (grid.rows - 2) as int == 0
            &&& s.cycle as int % (grid.cols - 2) as int == 0
            &&& s.consistent_with(blizzards@, grid.rows as int, grid.cols as int)
            &&& forall|j: int|
                0 <= j < blizzards@.len() ==> 1 <= (#[trigger] blizzards@[j]).pos.row < grid.rows
                    - 1 && 1 <= blizzards@[j].pos.col < grid.cols - 1
        },
{
    let rows = grid.rows;
    let cols = grid.cols;
    if rows < 3 || cols < 3 {
        return Err(SearchError::InvalidGrid);
    }

    let mut j: usize = 0;
    while j < blizzards.len()
        invariant
            j <= blizzards@.len(),
            forall|i: int|
                0 <= i < j ==> 1 <= (#[trigger] blizzards@[i]).pos.row < rows - 1 && 1
                    <= blizzards@[i].pos.col < cols - 1,
            rows >= 3,
            cols >= 3,
            rows == grid.rows,
            cols == grid.cols,
        decreases blizzards@.len() - j,
    {
        let b = blizzards[j];
        if !(1 <= b.pos.row && b.pos.row < rows - 1 && 1 <= b.pos.col && b.pos.col < cols - 1) {
            return Err(SearchError::OutOfBoundsCoordinate);
        }
        j = j + 1;
    }

    proof {
        assert((rows - 2) * (cols - 2) <= rows * cols) by (nonlinear_arith)
            requires
                rows >= 3,
                cols >= 3,
        {}
    }
    let cycle = lcm(rows - 2, cols - 2);

    let mut positions: Vec<Coord> = Vec::new();
    let mut i: usize = 0;
    while i < blizzards.len()
        invariant
            i <= blizzards@.len(),
            positions@.len() == i,
            forall|k: int|
                0 <= k < i ==> (#[trigger] positions@[k]).row == blizzards@[k].pos.row
                    && positions@[k].col == blizzards@[k].pos.col,
        decreases blizzards@.len() - i,
    {
        positions.push(blizzards[i].pos);
        i = i + 1;
    }

    proof {
        assert forall|k: int| 0 <= k < positions@.len() implies (#[trigger] positions@[k]).row
            as int == bliz_row_at(blizzards@[k], 0, rows as int) && positions@[k].col as int
            == bliz_col_at(blizzards@[k], 0, cols as int) by {
            lemma_bliz_at_zero(blizzards@[k], rows as int, cols as int);
        }
    }

    let mut maps: Vec<Vec<Vec<bool>>> = Vec::new();
    let mut t: usize = 0;
    while t < cycle
        invariant
            t <= cycle,
            rows >= 3,
            cols >= 3,
            cycle >= 1,
            blizzards@.len() == positions@.len(),
            forall|k: int|
                0 <= k < blizzards@.len() ==> 1 <= (#[trigger] blizzards@[k]).pos.row < rows - 1
                    && 1 <= blizzards@[k].pos.col < cols - 1,
            forall|k: int|
                0 <= k < positions@.len() ==> (#[trigger] positions@[k]).row as int == bliz_row_at(
                    blizzards@[k],
                    t as nat,
                    rows as int,
                ) && positions@[k].col as int == bliz_col_at(blizzards@[k], t as nat, cols as int),
            maps@.len() == t,
            forall|u: int| 0 <= u < t ==> (#[trigger] maps@[u])@.len() == rows,
            forall|u: int, r: int|
                0 <= u < t && 0 <= r < rows ==> (#[trigger] maps@[u]@[r])@.len() == cols,
            forall|u: int, r: int, c: int|
                0 <= u < t && 0 <= r < rows && 0 <= c < cols ==> #[trigger] maps@[u]@[r]@[c]
                    == occupied_at(blizzards@, u as nat, rows as int, cols as int, r, c),
        decreases cycle - t,
    {
        proof {
            assert forall|m: int| 0 <= m < positions@.len() implies 1 <= (
            #[trigger] positions@[m]).row < rows - 1 && 1 <= positions@[m].col < cols - 1 by {
                lemma_bliz_in_interior(blizzards@[m], t as nat, rows as int, cols as int);
            }
        }
        // record the occupancy of time step t
        let mut occ: Vec<Vec<bool>> = Vec::new();
        let mut r: usize = 0;
        while r < rows
            invariant
                r <= rows,
                occ@.len() == r,
                forall|x: int| 0 <= x < r ==> (#[trigger] occ@[x])@.len() == cols,
                forall|x: int, y: int|
                    0 <= x < r && 0 <= y < cols ==> !(#[trigger] occ@[x]@[y]),
            decreases rows - r,
        {
            let row = falses(cols);
            occ.push(row);
            r = r + 1;
        }

        let mut k: usize = 0;
        while k < positions.len()
            invariant
                k <= positions@.len(),
                blizzards@.len() == positions@.len(),
                rows >= 3,
                cols >= 3,
                occ@.len() == rows,
                forall|x: int| 0 <= x < rows ==> (#[trigger] occ@[x])@.len() == cols,
                forall|m: int|
                    0 <= m < positions@.len() ==> 1 <= (#[trigger] positions@[m]).row < rows - 1
                        && 1 <= positions@[m].col < cols - 1,
                forall|x: int, y: int|
                    0 <= x < rows && 0 <= y < cols ==> #[trigger] occ@[x]@[y] == (exists|m: int|
                        0 <= m < k && (#[trigger] positions@[m]).row == x && positions@[m].col
                            == y),
            decreases positions@.len() - k,
        {
            let p = positions[k];
            let ghost old_occ = occ@;
            let prow = &mut occ[p.row];
            prow.set(p.col, true);
            proof {
                assert(occ@[p.row as int]@[p.col as int]);
                assert forall|x: int, y: int|
                    0 <= x < rows && 0 <= y < cols implies #[trigger] occ@[x]@[y] == (exists|m: int|
                        0 <= m < k + 1 && (#[trigger] positions@[m]).row == x && positions@[m].col
                            == y) by {
                    if x == p.row as int && y == p.col as int {
                        assert(positions@[k as int].row == x && positions@[k as int].col == y);
                    } else {
                        assert(occ@[x]@[y] == old_occ[x]@[y]);
                    }
                }
            }
            k = k + 1;
        }

        proof {
            assert forall|x: int, y: int| 0 <= x < rows && 0 <= y < cols implies #[trigger] occ@[x]@[y]
                == occupied_at(blizzards@, t as nat, rows as int, cols as int, x, y) by {
                if occ@[x]@[y] {
                    let m = choose|m: int|
                        0 <= m < positions@.len() && (#[trigger] positions@[m]).row == x
                            && positions@[m].col == y;
                    assert(bliz_row_at(blizzards@[m], t as nat, rows as int) == x && bliz_col_at(
                        blizzards@[m],
                        t as nat,
                        cols as int,
                    ) == y);
                }
                if occupied_at(blizzards@, t as nat, rows as int, cols as int, x, y) {
                    let jj = choose|j: int|
                        0 <= j < blizzards@.len() && #[trigger] bliz_row_at(
                            blizzards@[j],
                            t as nat,
                            rows as int,
                        ) == x && bliz_col_at(blizzards@[j], t as nat, cols as int) == y;
                    assert(positions@[jj].row == x && positions@[jj].col == y);
                    assert(occ@[x]@[y]);
                }
            }
        }

        let ghost old_maps = maps@;
        maps.push(occ);
        proof {
            assert forall|u: int| 0 <= u < t + 1 implies (#[trigger] maps@[u])@.len() == rows by {
                if u < t {
                    assert(maps@[u] == old_maps[u]);
                }
            }
            assert forall|u: int, r: int| 0 <= u < t + 1 && 0 <= r < rows implies (
            #[trigger] maps@[u]@[r])@.len() == cols by {
                if u < t {
                    assert(maps@[u] == old_maps[u]);
                }
            }
            assert forall|u: int, r: int, c: int|
                0 <= u < t + 1 && 0 <= r < rows && 0 <= c < cols implies #[trigger] maps@[u]@[r]@[c]
                == occupied_at(blizzards@, u as nat, rows as int, cols as int, r, c) by {
                if u < t {
                    assert(maps@[u] == old_maps[u]);
                }
            }
        }

        // advance every obstacle one step
        let ghost old_positions = positions@;
        let mut k2: usize = 0;
        while k2 < positions.len()
            invariant
                k2 <= positions@.len(),
                positions@.len() == old_positions.len(),
                blizzards@.len() == positions@.len(),
                rows >= 3,
                cols >= 3,
                forall|m: int|
                    0 <= m < blizzards@.len() ==> 1 <= (#[trigger] blizzards@[m]).pos.row < rows
                        - 1 && 1 <= blizzards@[m].pos.col < cols - 1,
                forall|m: int|
                    k2 <= m < positions@.len() ==> #[trigger] positions@[m] == old_positions[m],
                forall|m: int|
                    0 <= m < old_positions.len() ==> (#[trigger] old_positions[m]).row as int
                        == bliz_row_at(blizzards@[m], t as nat, rows as int)
                        && old_positions[m].col as int == bliz_col_at(
                        blizzards@[m],
                        t as nat,
                        cols as int,
                    ),
                forall|m: int|
                    0 <= m < k2 ==> (#[trigger] positions@[m]).row as int == bliz_row_at(
                        blizzards@[m],
                        (t + 1) as nat,
                        rows as int,
                    ) && positions@[m].col as int == bliz_col_at(
                        blizzards@[m],
                        (t + 1) as nat,
                        cols as int,
                    ),
            decreases positions@.len() - k2,
        {
            let p = positions[k2];
            let b = blizzards[k2];
            proof {
                lemma_bliz_in_interior(b, t as nat, rows as int, cols as int);
                lemma_step_advances(b, t as nat, rows as int, cols as int);
            }
            let q = bliz_step(p, b.dir, rows, cols);
            positions.set(k2, q);
            k2 = k2 + 1;
        }

        t = t + 1;
    }

    Ok(Schedule { cycle, maps })
}

} // verus!

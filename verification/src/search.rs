//! The search engine: a cost-monotonic frontier search over the state
//! space of position × elapsed-time, with elapsed time reduced modulo the
//! schedule's cycle for deduplication.  The frontier advances one time
//! step per layer, so the first layer that contains the end coordinate is
//! the minimal arrival; and because the deduplicated state space is
//! finite, an exhausted frontier proves that no path exists at all.

use vstd::prelude::*;

verus! {

use crate::grid::{Coord, Grid, SearchError};
use crate::schedule::Schedule;
use vstd::arithmetic::div_mod::{
    lemma_add_mod_noop, lemma_fundamental_div_mod_converse,
};

/// One legal move of the agent: stay in place or step to a cardinal
/// neighbour.
pub open spec fn can_step(q: Coord, p: Coord) -> bool {
    ||| p == q
    ||| (p.row == q.row && (p.col == q.col + 1 || p.col + 1 == q.col))
    ||| (p.col == q.col && (p.row == q.row + 1 || p.row + 1 == q.row))
}

/// Whether the agent may stand on cell `p` at absolute time `t`: inside
/// the rectangle, not on a wall, and not in that time step's obstacle
/// occupancy.
pub open spec fn free_at(g: Grid, s: Schedule, p: Coord, t: nat) -> bool {
    &&& g.in_bounds(p.row as int, p.col as int)
    &&& !g.is_wall(p.row as int, p.col as int)
    &&& !s.occ(t, p.row as int, p.col as int)
}

/// Whether a legal move sequence starting at `from` at time `t0` can put
/// the agent on `p` at time `t`: every step moves to a cardinal neighbour
/// or waits, and every position after the start is free at its time.
pub open spec fn reachable(g: Grid, s: Schedule, from: Coord, t0: nat, p: Coord, t: nat) -> bool
    decreases t,
{
    if t < t0 {
        false
    } else if t == t0 {
        p == from
    } else {
        free_at(g, s, p, t) && exists|q: Coord|
            reachable(g, s, from, t0, q, (t - 1) as nat) && #[trigger] can_step(q, p)
    }
}

/// Whether `e` is the minimal elapsed time of a legal trip from `from`
/// (departing at `t0`) to `to`: the arrival is reachable and no strictly
/// earlier arrival is.
pub open spec fn is_min_arrival(g: Grid, s: Schedule, from: Coord, to: Coord, t0: nat, e: nat) -> bool {
    &&& reachable(g, s, from, t0, to, (t0 + e) as nat)
    &&& forall|t2: nat| t0 <= t2 < t0 + e ==> !reachable(g, s, from, t0, to, t2)
}

/// The number of `false` entries of a boolean sequence.
pub open spec fn count_false(s: Seq<bool>) -> nat
    decreases s.len(),
{
    if s.len() == 0 {
        0
    } else {
        count_false(s.drop_last()) + (if s.last() {
            0nat
        } else {
            1nat
        })
    }
}

proof fn lemma_count_false_update(s: Seq<bool>, i: int)
    requires
        0 <= i < s.len(),
        !s[i],
    ensures
        count_false(s.update(i, true)) + 1 == count_false(s),
    decreases s.len(),
{
    let su = s.update(i, true);
    if i == s.len() - 1 {
        assert(su.drop_last() =~= s.drop_last());
    } else {
        assert(su.drop_last() =~= s.drop_last().update(i, true));
        assert(!s.drop_last()[i]);
        lemma_count_false_update(s.drop_last(), i);
        assert(su.last() == s.last());
    }
}

proof fn lemma_count_false_all(s: Seq<bool>)
    requires
        forall|i: int| 0 <= i < s.len() ==> !(#[trigger] s[i]),
    ensures
        count_false(s) == s.len(),
    decreases s.len(),
{
    if s.len() > 0 {
        assert(forall|i: int| 0 <= i < s.drop_last().len() ==> !(#[trigger] s.drop_last()[i]));
        lemma_count_false_all(s.drop_last());
    }
}

/// The deduplication table of the search: one bit per state of
/// {time-modulo-cycle} × {row} × {column}, plus the exact number of still
/// unseen states, which bounds how long the search can keep growing.
struct SeenTable {
    cycle: usize,
    rows: usize,
    cols: usize,
    bits: Vec<bool>,
}

impl SeenTable {
    spec fn wf(self) -> bool {
        &&& self.cycle >= 1
        &&& self.rows >= 1
        &&& self.cols >= 1
        &&& self.bits@.len() == self.cycle * self.rows * self.cols
    }

    spec fn idx(self, tau: int, r: int, c: int) -> int {
        (tau * self.rows + r) * self.cols + c
    }

    spec fn in_range(self, tau: int, r: int, c: int) -> bool {
        0 <= tau < self.cycle && 0 <= r < self.rows && 0 <= c < self.cols
    }

    spec fn is_seen(self, tau: int, r: int, c: int) -> bool {
        self.bits@[self.idx(tau, r, c)]
    }

    spec fn unseen(self) -> nat {
        count_false(self.bits@)
    }

    proof fn lemma_idx_bounds(self, tau: int, r: int, c: int)
        requires
            self.wf(),
            self.in_range(tau, r, c),
        ensures
            0 <= tau * self.rows + r < self.cycle * self.rows,
            0 <= self.idx(tau, r, c) < self.cycle * self.rows * self.cols,
            tau * self.rows + r <= self.idx(tau, r, c),
    {
        assert(0 <= tau * self.rows + r < self.cycle * self.rows && 0 <= (tau * self.rows + r)
            * self.cols + c < self.cycle * self.rows * self.cols && tau * self.rows + r <= (tau
            * self.rows + r) * self.cols + c) by (nonlinear_arith)
            requires
                0 <= tau < self.cycle,
                0 <= r < self.rows,
                0 <= c < self.cols,
                self.rows >= 1,
                self.cols >= 1,
                self.cycle >= 1,
        {}
    }

    proof fn lemma_idx_inj(self, tau: int, r: int, c: int, tau2: int, r2: int, c2: int)
        requires
            self.wf(),
            self.in_range(tau, r, c),
            self.in_range(tau2, r2, c2),
            self.idx(tau, r, c) == self.idx(tau2, r2, c2),
        ensures
            tau == tau2,
            r == r2,
            c == c2,
    {
        let x = self.idx(tau, r, c);
        lemma_fundamental_div_mod_converse(x, self.cols as int, tau * self.rows + r, c);
        lemma_fundamental_div_mod_converse(x, self.cols as int, tau2 * self.rows + r2, c2);
        let y = tau * self.rows + r;
        lemma_fundamental_div_mod_converse(y, self.rows as int, tau, r);
        lemma_fundamental_div_mod_converse(y, self.rows as int, tau2, r2);
    }

    fn new(cycle: usize, rows: usize, cols: usize) -> (s: Self)
        requires
            cycle >= 1,
            rows >= 1,
            cols >= 1,
            cycle * rows * cols <= usize::MAX,
        ensures
            s.wf(),
            s.cycle == cycle,
            s.rows == rows,
            s.cols == cols,
            forall|tau: int, r: int, c: int|
                s.in_range(tau, r, c) ==> !(#[trigger] s.is_seen(tau, r, c)),
            s.unseen() == cycle * rows * cols,
    {
        proof {
            assert(cycle * rows >= 1 && cycle * rows <= cycle * rows * cols) by (nonlinear_arith)
                requires
                    cycle >= 1,
                    rows >= 1,
                    cols >= 1,
            {}
        }
        let n: usize = cycle * rows * cols;
        let bits = crate::schedule::falses(n);
        let s = SeenTable { cycle, rows, cols, bits };
        proof {
            lemma_count_false_all(s.bits@);
            assert forall|tau: int, r: int, c: int| s.in_range(tau, r, c) implies !(
            #[trigger] s.is_seen(tau, r, c)) by {
                s.lemma_idx_bounds(tau, r, c);
            }
        }
        s
    }

    fn get(&self, tau: usize, r: usize, c: usize) -> (b: bool)
        requires
            self.wf(),
            self.in_range(tau as int, r as int, c as int),
        ensures
            b == self.is_seen(tau as int, r as int, c as int),
    {
        proof {
            self.lemma_idx_bounds(tau as int, r as int, c as int);
            vstd::std_specs::vec::axiom_spec_len(&self.bits);
        }
        self.bits[(tau * self.rows + r) * self.cols + c]
    }

    fn mark(&mut self, tau: usize, r: usize, c: usize)
        requires
            old(self).wf(),
            old(self).in_range(tau as int, r as int, c as int),
            !old(self).is_seen(tau as int, r as int, c as int),
        ensures
            final(self).wf(),
            final(self).cycle == old(self).cycle,
            final(self).rows == old(self).rows,
            final(self).cols == old(self).cols,
            forall|x: int, y: int, z: int|
                old(self).in_range(x, y, z) ==> #[trigger] final(self).is_seen(x, y, z) == (
                if x == tau && y == r && z == c {
                    true
                } else {
                    old(self).is_seen(x, y, z)
                }),
            final(self).unseen() + 1 == old(self).unseen(),
    {
        proof {
            self.lemma_idx_bounds(tau as int, r as int, c as int);
            vstd::std_specs::vec::axiom_spec_len(&self.bits);
        }
        let i: usize = (tau * self.rows + r) * self.cols + c;
        let ghost oldself = *self;
        self.bits.set(i, true);
        proof {
            lemma_count_false_update(oldself.bits@, i as int);
            assert forall|x: int, y: int, z: int| oldself.in_range(x, y, z) implies
                #[trigger] self.is_seen(x, y, z) == (if x == tau && y == r && z == c {
                true
            } else {
                oldself.is_seen(x, y, z)
            }) by {
                self.lemma_idx_bounds(x, y, z);
                if !(x == tau && y == r && z == c) {
                    if oldself.idx(x, y, z) == oldself.idx(tau as int, r as int, c as int) {
                        oldself.lemma_idx_inj(x, y, z, tau as int, r as int, c as int);
                    }
                }
            }
        }
    }
}

/// Every legal move from `p`: the in-bounds cardinal neighbours plus `p`
/// itself (the wait move).
fn candidate_moves(p: Coord, rows: usize, cols: usize) -> (v: Vec<Coord>)
    requires
        p.row < rows,
        p.col < cols,
    ensures
        forall|k: int|
            0 <= k < v@.len() ==> (#[trigger] v@[k]).row < rows && v@[k].col < cols && can_step(
                p,
                v@[k],
            ),
        forall|q: Coord|
            #[trigger] can_step(p, q) && q.row < rows && q.col < cols ==> v@.contains(q),
{
    let mut v = p.neighbours(rows, cols);
    let ghost pre = v@;
    let ghost iw: int = v@.len() as int;
    v.push(p);
    proof {
        assert forall|q: Coord| #[trigger] can_step(p, q) && q.row < rows && q.col < cols implies v@.contains(
            q,
        ) by {
            if q == p {
                assert(v@[iw] == q);
            } else {
                assert(crate::grid::adjacent(p, q));
                assert(pre.contains(q));
                let k = choose|k: int| 0 <= k < pre.len() && pre[k] == q;
                assert(v@[k] == q);
            }
        }
    }
    v
}

/// Congruent times see the same obstacle occupancy, so the same freedom
/// of a cell.
proof fn lemma_free_congruent(g: Grid, s: Schedule, q: Coord, ta: nat, tb: nat)
    requires
        s.cycle >= 1,
        ta as int % s.cycle as int == tb as int % s.cycle as int,
    ensures
        free_at(g, s, q, ta) == free_at(g, s, q, tb),
{
}

/// Congruence is preserved by stepping one unit of time.
proof fn lemma_mod_succ(a: int, b: int, m: int)
    requires
        m >= 1,
        a >= 0,
        b >= 0,
        a % m == b % m,
    ensures
        (a + 1) % m == (b + 1) % m,
{
    lemma_add_mod_noop(a, 1, m);
    lemma_add_mod_noop(b, 1, m);
}

/// One legal move from a reachable position reaches the next time step.
proof fn lemma_step_reach(g: Grid, s: Schedule, from: Coord, t0: nat, p: Coord, q: Coord, t: nat)
    requires
        reachable(g, s, from, t0, p, t),
        can_step(p, q),
        free_at(g, s, q, (t + 1) as nat),
    ensures
        reachable(g, s, from, t0, q, (t + 1) as nat),
{
    assert(t >= t0);
    assert(reachable(g, s, from, t0, p, (((t + 1) as nat) - 1) as nat));
}

/// Once every position reachable at `tn` was already reachable at an
/// earlier congruent time, the same holds of every later time step.
proof fn lemma_downshift(g: Grid, s: Schedule, from: Coord, t0: nat, tn: nat, t: nat)
    requires
        s.cycle >= 1,
        tn > t0,
        t >= tn,
        forall|q: Coord|
            #[trigger] reachable(g, s, from, t0, q, tn) ==> exists|t2: nat|
                t0 <= t2 < tn && t2 as int % s.cycle as int == tn as int % s.cycle as int
                    && reachable(g, s, from, t0, q, t2),
    ensures
        forall|q: Coord|
            #[trigger] reachable(g, s, from, t0, q, t) ==> exists|t2: nat|
                t0 <= t2 < t && t2 as int % s.cycle as int == t as int % s.cycle as int
                    && reachable(g, s, from, t0, q, t2),
    decreases t,
{
    if t > tn {
        lemma_downshift(g, s, from, t0, tn, (t - 1) as nat);
        assert forall|q: Coord| #[trigger] reachable(g, s, from, t0, q, t) implies exists|t2: nat|
            t0 <= t2 < t && t2 as int % s.cycle as int == t as int % s.cycle as int && reachable(
                g,
                s,
                from,
                t0,
                q,
                t2,
            ) by {
            let p = choose|p: Coord|
                reachable(g, s, from, t0, p, (t - 1) as nat) && #[trigger] can_step(p, q);
            let t3 = choose|t3: nat|
                t0 <= t3 < t - 1 && t3 as int % s.cycle as int == (t - 1) as int % s.cycle as int
                    && reachable(g, s, from, t0, p, t3);
            lemma_mod_succ(t3 as int, (t - 1) as int, s.cycle as int);
            lemma_free_congruent(g, s, q, t, (t3 + 1) as nat);
            lemma_step_reach(g, s, from, t0, p, q, t3);
            assert(t0 <= t3 + 1 < t && (t3 + 1) as int % s.cycle as int == t as int
                % s.cycle as int && reachable(g, s, from, t0, q, (t3 + 1) as nat));
        }
    }
}

/// Termination on no-path: once the frontier at `tn` is empty (every
/// position reachable at `tn` was reachable at an earlier congruent time)
/// and the end was not reached before `tn`, the end is not reachable at
/// any time at all.
proof fn lemma_no_path(g: Grid, s: Schedule, from: Coord, t0: nat, end: Coord, tn: nat, t: nat)
    requires
        s.cycle >= 1,
        tn > t0,
        forall|q: Coord|
            #[trigger] reachable(g, s, from, t0, q, tn) ==> exists|t2: nat|
                t0 <= t2 < tn && t2 as int % s.cycle as int == tn as int % s.cycle as int
                    && reachable(g, s, from, t0, q, t2),
        forall|t2: nat| t0 <= t2 < tn ==> !reachable(g, s, from, t0, end, t2),
    ensures
        !reachable(g, s, from, t0, end, t),
    decreases t,
{
    if reachable(g, s, from, t0, end, t) {
        assert(t >= t0);
        if t < tn {
            assert(false);
        } else {
            lemma_downshift(g, s, from, t0, tn, t);
            let t2 = choose|t2: nat|
                t0 <= t2 < t && t2 as int % s.cycle as int == t as int % s.cycle as int
                    && reachable(g, s, from, t0, end, t2);
            lemma_no_path(g, s, from, t0, end, tn, t2);
        }
    }
}

/// The minimal arrival time of a legal move sequence from `start` at
/// absolute time `start_time` to `end`.
///
/// Fails with `OutOfBoundsCoordinate` exactly when `start` or `end` lies
/// outside the grid.  Otherwise it returns the least elapsed time whose
/// arrival is reachable, or `NoPathFound` exactly when no arrival time is
/// reachable at all — the modulo-cycle deduplication bounds the explored
/// state space, so exhaustion of the frontier is a proof of absence.
#[verifier::loop_isolation(false)]
pub fn shortest_arrival(
    grid: &Grid,
    sched: &Schedule,
    start: Coord,
    end: Coord,
    start_time: usize,
) -> (res: Result<usize, SearchError>)
    requires
        grid.wf(),
        grid.rows >= 1,
        grid.cols >= 1,
        sched.wf(grid.rows as int, grid.cols as int),
        start_time + grid.rows * grid.cols * sched.cycle + 1 <= usize::MAX,
    ensures
        (res matches Err(SearchError::OutOfBoundsCoordinate)) <==> !(grid.in_bounds(
            start.row as int,
            start.col as int,
        ) && grid.in_bounds(end.row as int, end.col as int)),
        !(res matches Err(SearchError::InvalidGrid)),
        res matches Ok(e) ==> start_time + e <= usize::MAX && e <= grid.rows * grid.cols
            * sched.cycle && is_min_arrival(*grid, *sched, start, end, start_time as nat, e as nat),
        (res matches Err(SearchError::NoPathFound)) ==> forall|t2: nat|
            !reachable(*grid, *sched, start, start_time as nat, end, t2),
{
    if !(grid.contains(start) && grid.contains(end)) {
        return Err(SearchError::OutOfBoundsCoordinate);
    }
    let rows = grid.rows;
    let cols = grid.cols;
    let cycle = sched.cycle;
    let ghost g = *grid;
    let ghost s = *sched;
    let ghost t0 = start_time as nat;
    let ghost total = (cycle * rows * cols) as nat;
    proof {
        assert(cycle * rows * cols == rows * cols * cycle) by (nonlinear_arith) {}
    }
    let mut seen = SeenTable::new(cycle, rows, cols);
    let mut frontier: Vec<Coord> = Vec::new();
    frontier.push(start);
    let tau0 = start_time % cycle;
    seen.mark(tau0, start.row, start.col);
    let mut t: usize = start_time;
    proof {
        assert(reachable(g, s, start, t0, start, t0));
        assert(frontier@[0] == start);
        assert forall|p: Coord| #[trigger] reachable(g, s, start, t0, p, t0) implies frontier@.contains(
            p,
        ) by {
            assert(p == start);
        }
        assert forall|x: int, y: int, z: int|
            seen.in_range(x, y, z) && #[trigger] seen.is_seen(x, y, z) implies exists|t2: nat|
            t0 <= t2 <= t && t2 as int % cycle as int == x && #[trigger] reachable(
                g,
                s,
                start,
                t0,
                (Coord { row: y as usize, col: z as usize }),
                t2,
            ) by {
            assert(x == tau0 && y == start.row && z == start.col);
            assert((Coord { row: y as usize, col: z as usize }) == start);
            assert(t0 as int % cycle as int == tau0 as int);
        }
    }

    loop
        invariant
            start_time <= t,
            t - start_time <= total - seen.unseen(),
            seen.wf(),
            seen.unseen() <= total,
            seen.cycle == cycle,
            seen.rows == rows,
            seen.cols == cols,
            frontier@.len() >= 1,
            forall|k: int|
                0 <= k < frontier@.len() ==> (#[trigger] frontier@[k]).row < rows
                    && frontier@[k].col < cols && reachable(g, s, start, t0, frontier@[k], t as nat),
            forall|p: Coord|
                #[trigger] reachable(g, s, start, t0, p, t as nat) ==> frontier@.contains(p) || (
                exists|t2: nat|
                    t0 <= t2 < t && t2 as int % cycle as int == t as int % cycle as int
                        && reachable(g, s, start, t0, p, t2)),
            forall|p: Coord, t2: nat|
                t0 <= t2 <= t && #[trigger] reachable(g, s, start, t0, p, t2) ==> p.row < rows
                    && p.col < cols && seen.is_seen(
                    t2 as int % cycle as int,
                    p.row as int,
                    p.col as int,
                ),
            forall|x: int, y: int, z: int|
                seen.in_range(x, y, z) && #[trigger] seen.is_seen(x, y, z) ==> exists|t2: nat|
                    t0 <= t2 <= t && t2 as int % cycle as int == x && #[trigger] reachable(
                        g,
                        s,
                        start,
                        t0,
                        (Coord { row: y as usize, col: z as usize }),
                        t2,
                    ),
            forall|t2: nat| t0 <= t2 < t ==> !reachable(g, s, start, t0, end, t2),
        decreases seen.unseen(),
    {
        // is the end coordinate in the current layer?
        let mut i: usize = 0;
        while i < frontier.len()
            invariant
                i <= frontier@.len(),
                forall|j: int| 0 <= j < i ==> frontier@[j] != end,
            decreases frontier@.len() - i,
        {
            if frontier[i] == end {
                return Ok(t - start_time);
            }
            i = i + 1;
        }
        proof {
            if reachable(g, s, start, t0, end, t as nat) {
                if frontier@.contains(end) {
                    let k = choose|k: int| 0 <= k < frontier@.len() && frontier@[k] == end;
                    assert(false);
                }
                assert(false);
            }
        }

        let tn = t + 1;
        let tau = tn % cycle;
        let ghost pre_seen = seen;
        let ghost pre_unseen = seen.unseen();
        let mut next: Vec<Coord> = Vec::new();
        let mut i2: usize = 0;
        while i2 < frontier.len()
            invariant
                i2 <= frontier@.len(),
                seen.wf(),
                seen.cycle == cycle,
                seen.rows == rows,
                seen.cols == cols,
                seen.unseen() + next@.len() == pre_unseen,
                forall|x: int, y: int, z: int|
                    seen.in_range(x, y, z) && pre_seen.is_seen(x, y, z)
                        ==> #[trigger] seen.is_seen(x, y, z),
                forall|x: int, y: int, z: int|
                    seen.in_range(x, y, z) && x != tau ==> #[trigger] seen.is_seen(x, y, z)
                        == pre_seen.is_seen(x, y, z),
                forall|j: int, q: Coord|
                    0 <= j < i2 && #[trigger] can_step(frontier@[j], q) && free_at(
                        g,
                        s,
                        q,
                        tn as nat,
                    ) ==> seen.is_seen(tau as int, q.row as int, q.col as int),
                forall|k: int|
                    0 <= k < next@.len() ==> (#[trigger] next@[k]).row < rows && next@[k].col
                        < cols && reachable(g, s, start, t0, next@[k], tn as nat)
                        && seen.is_seen(tau as int, next@[k].row as int, next@[k].col as int),
                forall|y: int, z: int|
                    seen.in_range(tau as int, y, z) && #[trigger] seen.is_seen(tau as int, y, z)
                        ==> pre_seen.is_seen(tau as int, y, z) || next@.contains(
                        (Coord { row: y as usize, col: z as usize }),
                    ),
                forall|x: int, y: int, z: int|
                    seen.in_range(x, y, z) && #[trigger] seen.is_seen(x, y, z) ==> exists|t2: nat|
                        t0 <= t2 <= tn && t2 as int % cycle as int == x && #[trigger] reachable(
                            g,
                            s,
                            start,
                            t0,
                            (Coord { row: y as usize, col: z as usize }),
                            t2,
                        ),
            decreases frontier@.len() - i2,
        {
            let p = frontier[i2];
            let cands = candidate_moves(p, rows, cols);
            let mut i3: usize = 0;
            while i3 < cands.len()
                invariant
                    i3 <= cands@.len(),
                    seen.wf(),
                    seen.cycle == cycle,
                    seen.rows == rows,
                    seen.cols == cols,
                    seen.unseen() + next@.len() == pre_unseen,
                    forall|x: int, y: int, z: int|
                        seen.in_range(x, y, z) && pre_seen.is_seen(x, y, z)
                            ==> #[trigger] seen.is_seen(x, y, z),
                    forall|x: int, y: int, z: int|
                        seen.in_range(x, y, z) && x != tau ==> #[trigger] seen.is_seen(x, y, z)
                            == pre_seen.is_seen(x, y, z),
                    forall|j: int, q: Coord|
                        0 <= j < i2 && #[trigger] can_step(frontier@[j], q) && free_at(
                            g,
                            s,
                            q,
                            tn as nat,
                        ) ==> seen.is_seen(tau as int, q.row as int, q.col as int),
                    forall|k3: int|
                        0 <= k3 < i3 && free_at(g, s, #[trigger] cands@[k3], tn as nat)
                            ==> seen.is_seen(
                            tau as int,
                            cands@[k3].row as int,
                            cands@[k3].col as int,
                        ),
                    forall|k: int|
                        0 <= k < next@.len() ==> (#[trigger] next@[k]).row < rows && next@[k].col
                            < cols && reachable(g, s, start, t0, next@[k], tn as nat)
                            && seen.is_seen(tau as int, next@[k].row as int, next@[k].col as int),
                    forall|y: int, z: int|
                        seen.in_range(tau as int, y, z) && #[trigger] seen.is_seen(
                            tau as int,
                            y,
                            z,
                        ) ==> pre_seen.is_seen(tau as int, y, z) || next@.contains(
                            (Coord { row: y as usize, col: z as usize }),
                        ),
                    forall|x: int, y: int, z: int|
                        seen.in_range(x, y, z) && #[trigger] seen.is_seen(x, y, z) ==> exists|
                            t2: nat,
                        |
                            t0 <= t2 <= tn && t2 as int % cycle as int == x && #[trigger] reachable(
                                g,
                                s,
                                start,
                                t0,
                                (Coord { row: y as usize, col: z as usize }),
                                t2,
                            ),
                decreases cands@.len() - i3,
            {
                let q = cands[i3];
                let wall = grid.wall_at(q);
                let occ = sched.occ_at(tn, q, rows, cols);
                if !wall && !occ {
                    proof {
                        assert(free_at(g, s, q, tn as nat));
                    }
                    if !seen.get(tau, q.row, q.col) {
                        let ghost mid_seen = seen;
                        let ghost mid_next = next@;
                        seen.mark(tau, q.row, q.col);
                        next.push(q);
                        proof {
                            lemma_step_reach(g, s, start, t0, p, q, t as nat);
                            assert forall|y: int, z: int|
                                seen.in_range(tau as int, y, z) && #[trigger] seen.is_seen(
                                    tau as int,
                                    y,
                                    z,
                                ) implies pre_seen.is_seen(tau as int, y, z) || next@.contains(
                                (Coord { row: y as usize, col: z as usize }),
                            ) by {
                                if y == q.row as int && z == q.col as int {
                                    assert(next@[next@.len() - 1] == q);
                                    assert((Coord { row: y as usize, col: z as usize }) == q);
                                } else {
                                    assert(seen.is_seen(tau as int, y, z) == mid_seen.is_seen(
                                        tau as int,
                                        y,
                                        z,
                                    ));
                                    if !pre_seen.is_seen(tau as int, y, z) {
                                        assert(mid_next.contains(
                                            (Coord { row: y as usize, col: z as usize }),
                                        ));
                                        let k = choose|k: int|
                                            0 <= k < mid_next.len() && mid_next[k] == (Coord {
                                                row: y as usize,
                                                col: z as usize,
                                            });
                                        assert(next@[k] == mid_next[k]);
                                    }
                                }
                            }
                            assert forall|x: int, y: int, z: int|
                                seen.in_range(x, y, z) && #[trigger] seen.is_seen(x, y, z) implies exists|
                                t2: nat,
                            |
                                t0 <= t2 <= tn && t2 as int % cycle as int == x
                                    && #[trigger] reachable(
                                    g,
                                    s,
                                    start,
                                    t0,
                                    (Coord { row: y as usize, col: z as usize }),
                                    t2,
                                ) by {
                                if x == tau && y == q.row as int && z == q.col as int {
                                    assert((Coord { row: y as usize, col: z as usize }) == q);
                                    assert(tn as nat as int % cycle as int == tau as int);
                                    assert(reachable(g, s, start, t0, q, tn as nat));
                                } else {
                                    assert(mid_seen.is_seen(x, y, z));
                                }
                            }
                        }
                    }
                }
                i3 = i3 + 1;
            }
            proof {
                assert forall|q: Coord|
                    #[trigger] can_step(frontier@[i2 as int], q) && free_at(g, s, q, tn as nat) implies seen.is_seen(
                    tau as int,
                    q.row as int,
                    q.col as int,
                ) by {
                    assert(q.row < rows && q.col < cols);
                    assert(cands@.contains(q));
                    let k3 = choose|k3: int| 0 <= k3 < cands@.len() && cands@[k3] == q;
                    assert(free_at(g, s, cands@[k3], tn as nat));
                }
            }
            i2 = i2 + 1;
        }

        // the next layer is complete: everything reachable at tn is in it,
        // unless an earlier congruent time already reached it
        proof {
            assert forall|q: Coord| #[trigger] reachable(g, s, start, t0, q, tn as nat) implies next@.contains(
                q,
            ) || (exists|t2: nat|
                t0 <= t2 < tn && t2 as int % cycle as int == tn as int % cycle as int && reachable(
                    g,
                    s,
                    start,
                    t0,
                    q,
                    t2,
                )) by {
                let p2 = choose|p2: Coord|
                    reachable(g, s, start, t0, p2, (tn - 1) as nat) && #[trigger] can_step(p2, q);
                assert(reachable(g, s, start, t0, p2, t as nat));
                assert(free_at(g, s, q, tn as nat));
                if frontier@.contains(p2) {
                    let j = choose|j: int| 0 <= j < frontier@.len() && frontier@[j] == p2;
                    assert(seen.is_seen(tau as int, q.row as int, q.col as int));
                    if pre_seen.is_seen(tau as int, q.row as int, q.col as int) {
                        let t2 = choose|t2: nat|
                            t0 <= t2 <= t && t2 as int % cycle as int == tau as int && reachable(
                                g,
                                s,
                                start,
                                t0,
                                (Coord { row: q.row, col: q.col }),
                                t2,
                            );
                        assert((Coord { row: q.row, col: q.col }) == q);
                        assert(t0 <= t2 < tn && t2 as int % cycle as int == tn as int
                            % cycle as int && reachable(g, s, start, t0, q, t2));
                    } else {
                        assert(next@.contains(q));
                    }
                } else {
                    let t2 = choose|t2: nat|
                        t0 <= t2 < t && t2 as int % cycle as int == t as int % cycle as int
                            && reachable(g, s, start, t0, p2, t2);
                    lemma_mod_succ(t2 as int, t as int, cycle as int);
                    lemma_free_congruent(g, s, q, tn as nat, (t2 + 1) as nat);
                    lemma_step_reach(g, s, start, t0, p2, q, t2);
                    assert(t0 <= t2 + 1 < tn && (t2 + 1) as int % cycle as int == tn as int
                        % cycle as int && reachable(g, s, start, t0, q, (t2 + 1) as nat));
                }
            }
        }

        if next.len() == 0 {
            proof {
                assert forall|t2: nat| !reachable(g, s, start, t0, end, t2) by {
                    lemma_no_path(g, s, start, t0, end, tn as nat, t2);
                }
            }
            return Err(SearchError::NoPathFound);
        }

        // re-establish the outer invariants for the next layer
        proof {
            // everything reachable at a time up to tn is recorded as seen
            assert forall|p: Coord, t2: nat|
                t0 <= t2 <= tn && #[trigger] reachable(g, s, start, t0, p, t2) implies p.row < rows
                && p.col < cols && seen.is_seen(
                t2 as int % cycle as int,
                p.row as int,
                p.col as int,
            ) by {
                if t2 <= t {
                    assert(pre_seen.is_seen(t2 as int % cycle as int, p.row as int, p.col as int));
                } else {
                    assert(t2 == tn as nat);
                    if next@.contains(p) {
                        let k = choose|k: int| 0 <= k < next@.len() && next@[k] == p;
                        assert(seen.is_seen(tau as int, p.row as int, p.col as int));
                    } else {
                        let t3 = choose|t3: nat|
                            t0 <= t3 < tn && t3 as int % cycle as int == tn as int % cycle as int
                                && reachable(g, s, start, t0, p, t3);
                        assert(pre_seen.is_seen(
                            t3 as int % cycle as int,
                            p.row as int,
                            p.col as int,
                        ));
                    }
                    assert(free_at(g, s, p, tn as nat));
                }
            }
        }
        frontier = next;
        t = tn;
    }
}

} // verus!

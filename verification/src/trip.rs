//! The path composer: drives one search per leg of a multi-waypoint
//! journey, feeding each leg's absolute arrival time in as the next leg's
//! start time, and reports the total elapsed time.

use vstd::prelude::*;

verus! {

use crate::grid::{Coord, Grid, SearchError};
use crate::schedule::Schedule;
use crate::search::{is_min_arrival, reachable, shortest_arrival};

/// Whether some elapsed time is the minimal arrival of the leg.
pub open spec fn has_arrival(g: Grid, s: Schedule, from: Coord, to: Coord, t0: nat) -> bool {
    exists|e: nat| is_min_arrival(g, s, from, to, t0, e)
}

/// The minimal elapsed time of the leg (meaningful only when
/// `has_arrival` holds).
pub open spec fn min_arrival(g: Grid, s: Schedule, from: Coord, to: Coord, t0: nat) -> nat {
    choose|e: nat| is_min_arrival(g, s, from, to, t0, e)
}

/// Whether every leg of the waypoint sequence has an arrival, each leg
/// departing at the previous leg's arrival time.
pub open spec fn chain_ok(g: Grid, s: Schedule, ws: Seq<Coord>, t: nat) -> bool
    decreases ws.len(),
{
    if ws.len() <= 1 {
        true
    } else {
        has_arrival(g, s, ws[0], ws[1], t) && chain_ok(
            g,
            s,
            ws.subrange(1, ws.len() as int),
            t + min_arrival(g, s, ws[0], ws[1], t),
        )
    }
}

/// The absolute arrival time of the last leg of the chain.
pub open spec fn chain_end(g: Grid, s: Schedule, ws: Seq<Coord>, t: nat) -> nat
    decreases ws.len(),
{
    if ws.len() <= 1 {
        t
    } else {
        chain_end(g, s, ws.subrange(1, ws.len() as int), t + min_arrival(g, s, ws[0], ws[1], t))
    }
}

/// A leg has at most one minimal arrival.
pub proof fn lemma_min_arrival_unique(g: Grid, s: Schedule, from: Coord, to: Coord, t0: nat, e: nat)
    requires
        is_min_arrival(g, s, from, to, t0, e),
    ensures
        has_arrival(g, s, from, to, t0),
        min_arrival(g, s, from, to, t0) == e,
{
    let e2 = min_arrival(g, s, from, to, t0);
    assert(is_min_arrival(g, s, from, to, t0, e2));
    if e2 < e {
        assert(!reachable(g, s, from, t0, to, (t0 + e2) as nat));
    }
    if e < e2 {
        assert(!reachable(g, s, from, t0, to, (t0 + e) as nat));
    }
}

/// Zero-length trip: when start and end coincide, the minimal arrival is
/// immediate, whatever the start time.
pub proof fn lemma_zero_length_trip(g: Grid, s: Schedule, p: Coord, t0: nat, e: nat)
    requires
        is_min_arrival(g, s, p, p, t0, e),
    ensures
        e == 0,
{
    assert(reachable(g, s, p, t0, p, t0));
    if e > 0 {
        assert(!reachable(g, s, p, t0, p, t0));
    }
}

/// Chaining correctness for the round trip of the motivating puzzle:
/// composing the legs there, back, and there again through one chain
/// equals summing the three sequential minimal arrivals, each leg
/// departing at the previous arrival.
pub proof fn lemma_chain_round_trip(
    g: Grid,
    s: Schedule,
    a: Coord,
    b: Coord,
    t0: nat,
    e1: nat,
    e2: nat,
    e3: nat,
)
    requires
        is_min_arrival(g, s, a, b, t0, e1),
        is_min_arrival(g, s, b, a, (t0 + e1) as nat, e2),
        is_min_arrival(g, s, a, b, (t0 + e1 + e2) as nat, e3),
    ensures
        chain_ok(g, s, seq![a, b, a, b], t0),
        chain_end(g, s, seq![a, b, a, b], t0) == t0 + e1 + e2 + e3,
{
    let ws = seq![a, b, a, b];
    let t1 = (t0 + e1) as nat;
    let t2 = (t0 + e1 + e2) as nat;
    let t3 = (t0 + e1 + e2 + e3) as nat;
    lemma_min_arrival_unique(g, s, a, b, t0, e1);
    lemma_min_arrival_unique(g, s, b, a, t1, e2);
    lemma_min_arrival_unique(g, s, a, b, t2, e3);
    assert(chain_ok(g, s, seq![b], t3));
    assert(chain_end(g, s, seq![b], t3) == t3);
    assert(seq![a, b].subrange(1, 2) =~= seq![b]);
    assert(chain_ok(g, s, seq![a, b], t2));
    assert(chain_end(g, s, seq![a, b], t2) == t3);
    assert(seq![b, a, b].subrange(1, 3) =~= seq![a, b]);
    assert(chain_ok(g, s, seq![b, a, b], t1));
    assert(chain_end(g, s, seq![b, a, b], t1) == t3);
    assert(ws.subrange(1, 4) =~= seq![b, a, b]);
    assert(chain_ok(g, s, ws, t0));
    assert(chain_end(g, s, ws, t0) == t3);
}

/// Runs the legs from waypoint `i` on, departing at absolute time `tcur`,
/// and returns the absolute arrival time of the last leg.
#[verifier::loop_isolation(false)]
fn chain_from(
    grid: &Grid,
    sched: &Schedule,
    waypoints: &Vec<Coord>,
    i: usize,
    tcur: usize,
) -> (res: Result<usize, SearchError>)
    requires
        grid.wf(),
        grid.rows >= 1,
        grid.cols >= 1,
        sched.wf(grid.rows as int, grid.cols as int),
        i < waypoints@.len(),
        forall|k: int|
            0 <= k < waypoints@.len() ==> grid.in_bounds(
                (#[trigger] waypoints@[k]).row as int,
                waypoints@[k].col as int,
            ),
        tcur + (waypoints@.len() - i) * (grid.rows * grid.cols * sched.cycle + 1)
            <= usize::MAX,
    ensures
        (res matches Ok(tend) ==> chain_ok(
            *grid,
            *sched,
            waypoints@.subrange(i as int, waypoints@.len() as int),
            tcur as nat,
        ) && tend == chain_end(
            *grid,
            *sched,
            waypoints@.subrange(i as int, waypoints@.len() as int),
            tcur as nat,
        ) && tcur <= tend),
        (res matches Err(SearchError::NoPathFound)) <==> !chain_ok(
            *grid,
            *sched,
            waypoints@.subrange(i as int, waypoints@.len() as int),
            tcur as nat,
        ),
        res matches Ok(tend) || res matches Err(SearchError::NoPathFound),
    decreases waypoints@.len() - i,
{
    let ghost g = *grid;
    let ghost s = *sched;
    let ghost ws = waypoints@.subrange(i as int, waypoints@.len() as int);
    if i == waypoints.len() - 1 {
        assert(ws.len() == 1);
        return Ok(tcur);
    }
    let from = waypoints[i];
    let to = waypoints[i + 1];
    proof {
        assert((waypoints@.len() - i) * (grid.rows * grid.cols * sched.cycle + 1) >= (grid.rows
            * grid.cols * sched.cycle + 1)) by (nonlinear_arith)
            requires
                waypoints@.len() - i >= 1,
                grid.rows * grid.cols * sched.cycle >= 0,
        {}
    }
    match shortest_arrival(grid, sched, from, to, tcur) {
        Ok(e) => {
            proof {
                lemma_min_arrival_unique(g, s, from, to, tcur as nat, e as nat);
                assert(ws[0] == from && ws[1] == to);
                assert(ws.subrange(1, ws.len() as int) =~= waypoints@.subrange(
                    i + 1 as int,
                    waypoints@.len() as int,
                ));
                assert((waypoints@.len() - (i + 1)) * (grid.rows * grid.cols * sched.cycle + 1)
                    + (grid.rows * grid.cols * sched.cycle + 1) == (waypoints@.len() - i) * (
                grid.rows * grid.cols * sched.cycle + 1)) by (nonlinear_arith) {}
            }
            chain_from(grid, sched, waypoints, i + 1, tcur + e)
        },
        Err(_) => {
            proof {
                assert(!has_arrival(g, s, from, to, tcur as nat)) by {
                    if has_arrival(g, s, from, to, tcur as nat) {
                        let e2 = choose|e2: nat| is_min_arrival(g, s, from, to, tcur as nat, e2);
                        assert(!reachable(g, s, from, tcur as nat, to, (tcur + e2) as nat));
                    }
                }
                assert(ws[0] == from && ws[1] == to);
            }
            Err(SearchError::NoPathFound)
        },
    }
}

/// Total elapsed time across all legs of the journey: each leg departs at
/// the previous leg's absolute arrival time, and any leg without a path
/// aborts the whole chain.
///
/// Fails with `OutOfBoundsCoordinate` exactly when some waypoint lies
/// outside the grid, and with `NoPathFound` exactly when the waypoints
/// are in bounds but some leg of the chain has no arrival.
pub fn chained_trip(
    grid: &Grid,
    sched: &Schedule,
    waypoints: &Vec<Coord>,
    start_time: usize,
) -> (res: Result<usize, SearchError>)
    requires
        grid.wf(),
        grid.rows >= 1,
        grid.cols >= 1,
        sched.wf(grid.rows as int, grid.cols as int),
        waypoints@.len() >= 2,
        start_time + waypoints@.len() * (grid.rows * grid.cols * sched.cycle + 1) <= usize::MAX,
    ensures
        (res matches Err(SearchError::OutOfBoundsCoordinate)) <==> exists|k: int|
            0 <= k < waypoints@.len() && !grid.in_bounds(
                (#[trigger] waypoints@[k]).row as int,
                waypoints@[k].col as int,
            ),
        res matches Ok(total) ==> chain_ok(*grid, *sched, waypoints@, start_time as nat)
            && start_time + total == chain_end(*grid, *sched, waypoints@, start_time as nat),
        (res matches Err(SearchError::NoPathFound)) <==> ((forall|k: int|
            0 <= k < waypoints@.len() ==> grid.in_bounds(
                (#[trigger] waypoints@[k]).row as int,
                waypoints@[k].col as int,
            )) && !chain_ok(*grid, *sched, waypoints@, start_time as nat)),
        !(res matches Err(SearchError::InvalidGrid)),
{
    let mut k: usize = 0;
    while k < waypoints.len()
        invariant
            k <= waypoints@.len(),
            forall|j: int|
                0 <= j < k ==> grid.in_bounds(
                    (#[trigger] waypoints@[j]).row as int,
                    waypoints@[j].col as int,
                ),
        decreases waypoints@.len() - k,
    {
        if !grid.contains(waypoints[k]) {
            return Err(SearchError::OutOfBoundsCoordinate);
        }
        k = k + 1;
    }

    proof {
        assert(waypoints@.subrange(0, waypoints@.len() as int) =~= waypoints@);
    }
    match chain_from(grid, sched, waypoints, 0, start_time) {
        Ok(tend) => Ok(tend - start_time),
        Err(e) => Err(e),
    }
}

} // verus!

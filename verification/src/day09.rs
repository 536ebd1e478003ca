//! The rope simulation: a head knot moves by parsed instructions, and a
//! tail knot follows whenever it falls behind.

use vstd::prelude::*;

verus! {

/// One parsed instruction: a direction and how many single steps to take.
#[derive(Clone, Copy, PartialEq, Eq, Structural, Debug)]
pub enum Move {
    Left(usize),
    Right(usize),
    Up(usize),
    Down(usize),
}

/// Where the tail knot moves, given the head's and the tail's positions:
/// it steps straight when exactly two cells behind on one axis, and
/// diagonally towards the head when offset on both axes; otherwise it
/// stays.
pub open spec fn move_tail_spec(hx: int, hy: int, tx: int, ty: int) -> (int, int) {
    if hx > tx + 1 && hy == ty {
        (tx + 1, ty)
    } else if hx < tx - 1 && hy == ty {
        (tx - 1, ty)
    } else if hy > ty + 1 && hx == tx {
        (hx, ty + 1)
    } else if hy < ty - 1 && hx == tx {
        (tx, ty - 1)
    } else if hy != ty && hx != tx {
        if hx > tx && hy > ty {
            (tx + 1, ty + 1)
        } else if hx < tx && hy > ty {
            (tx - 1, ty + 1)
        } else if hx > tx && hy < ty {
            (tx + 1, ty - 1)
        } else {
            (tx - 1, ty - 1)
        }
    } else {
        (tx, ty)
    }
}

/// The head position after one step of the instruction.
pub fn move_head(m: &Move, pos: (i32, i32)) -> (r: (i32, i32))
    requires
        -0x4000_0000 <= pos.0 <= 0x4000_0000,
        -0x4000_0000 <= pos.1 <= 0x4000_0000,
    ensures
        match m {
            Move::Right(_) => r.0 == pos.0 + 1 && r.1 == pos.1,
            Move::Left(_) => r.0 == pos.0 - 1 && r.1 == pos.1,
            Move::Up(_) => r.0 == pos.0 && r.1 == pos.1 + 1,
            Move::Down(_) => r.0 == pos.0 && r.1 == pos.1 - 1,
        },
{
    let (x, y) = pos;
    match m {
        Move::Right(_) => (x + 1, y),
        Move::Left(_) => (x - 1, y),
        Move::Up(_) => (x, y + 1),
        Move::Down(_) => (x, y - 1),
    }
}

/// The tail position after the head has moved.
pub fn move_tail(head: (i32, i32), tail: (i32, i32)) -> (r: (i32, i32))
    requires
        -0x4000_0000 <= head.0 <= 0x4000_0000,
        -0x4000_0000 <= head.1 <= 0x4000_0000,
        -0x4000_0000 <= tail.0 <= 0x4000_0000,
        -0x4000_0000 <= tail.1 <= 0x4000_0000,
    ensures
        (r.0 as int, r.1 as int) == move_tail_spec(
            head.0 as int,
            head.1 as int,
            tail.0 as int,
            tail.1 as int,
        ),
{
    let (x, y) = head;
    let (xx, yy) = tail;
    if x > xx + 1 && y == yy {
        return (xx + 1, yy);
    }
    if x < xx - 1 && y == yy {
        return (xx - 1, yy);
    }
    if y > yy + 1 && x == xx {
        return (x, yy + 1);
    }
    if y < yy - 1 && x == xx {
        return (xx, yy - 1);
    }
    if y != yy && x != xx {
        if x > xx && y > yy {
            return (xx + 1, yy + 1);
        }
        if x < xx && y > yy {
            return (xx - 1, yy + 1);
        }
        if x > xx && y < yy {
            return (xx + 1, yy - 1);
        }
        if x < xx && y < yy {
            return (xx - 1, yy - 1);
        }
    }
    (xx, yy)
}

/// How many single steps the instruction asks for.
pub fn get_times(m: &Move) -> (r: &usize)
    ensures
        *r == (match m {
            Move::Right(times) => *times,
            Move::Left(times) => *times,
            Move::Up(times) => *times,
            Move::Down(times) => *times,
        }),
{
    match m {
        Move::Right(times) => times,
        Move::Left(times) => times,
        Move::Up(times) => times,
        Move::Down(times) => times,
    }
}

/// Whether `head` sits on one of the eight cells surrounding `tail`
/// (the cell of `tail` itself does not count).
pub fn next_to(head: (i32, i32), tail: (i32, i32)) -> (b: bool)
    requires
        -0x4000_0000 <= tail.0 <= 0x4000_0000,
        -0x4000_0000 <= tail.1 <= 0x4000_0000,
    ensures
        b == (head != tail && tail.0 - 1 <= head.0 <= tail.0 + 1 && tail.1 - 1 <= head.1 <= tail.1
            + 1),
{
    let (xx, yy) = tail;
    let near_x = xx - 1 <= head.0 && head.0 <= xx + 1;
    let near_y = yy - 1 <= head.1 && head.1 <= yy + 1;
    near_x && near_y && !(head.0 == xx && head.1 == yy)
}

/// How many single steps an instruction asks for.
pub open spec fn times_of(m: Move) -> nat {
    match m {
        Move::Right(times) => times as nat,
        Move::Left(times) => times as nat,
        Move::Up(times) => times as nat,
        Move::Down(times) => times as nat,
    }
}

/// The head position after one step of the instruction.
pub open spec fn head_step(m: Move, h: (int, int)) -> (int, int) {
    match m {
        Move::Right(_) => (h.0 + 1, h.1),
        Move::Left(_) => (h.0 - 1, h.1),
        Move::Up(_) => (h.0, h.1 + 1),
        Move::Down(_) => (h.0, h.1 - 1),
    }
}

/// Whether the head sits on one of the eight cells surrounding the tail.
pub open spec fn near(h: (int, int), t: (int, int)) -> bool {
    h != t && t.0 - 1 <= h.0 <= t.0 + 1 && t.1 - 1 <= h.1 <= t.1 + 1
}

/// The whole simulation state: head, tail, and the distinct tail
/// positions in order of first visit.
pub struct RopeState {
    pub head: (int, int),
    pub tail: (int, int),
    pub visited: Seq<(int, int)>,
}

/// One unit step: the head moves, and a tail left behind follows and
/// records its new position.
pub open spec fn sim_step(m: Move, st: RopeState) -> RopeState {
    let h = head_step(m, st.head);
    if near(h, st.tail) {
        RopeState { head: h, tail: st.tail, visited: st.visited }
    } else {
        let t = move_tail_spec(h.0, h.1, st.tail.0, st.tail.1);
        RopeState {
            head: h,
            tail: t,
            visited: if st.visited.contains(t) {
                st.visited
            } else {
                st.visited.push(t)
            },
        }
    }
}

/// The state after `k` unit steps of one instruction.
pub open spec fn sim_move(m: Move, k: nat, st: RopeState) -> RopeState
    decreases k,
{
    if k == 0 {
        st
    } else {
        sim_step(m, sim_move(m, (k - 1) as nat, st))
    }
}

/// The state after the first `i` instructions, starting with head and
/// tail at the origin and the origin already visited.
pub open spec fn sim_upto(moves: Seq<Move>, i: int) -> RopeState
    decreases i,
{
    if i <= 0 {
        RopeState { head: (0, 0), tail: (0, 0), visited: seq![(0int, 0int)] }
    } else {
        sim_move(moves[i - 1], times_of(moves[i - 1]), sim_upto(moves, i - 1))
    }
}

/// The combined step counts of the first `i` instructions.
pub open spec fn units_upto(moves: Seq<Move>, i: int) -> int
    decreases i,
{
    if i <= 0 {
        0
    } else {
        units_upto(moves, i - 1) + times_of(moves[i - 1])
    }
}

proof fn lemma_units_monotone(moves: Seq<Move>, i: int, j: int)
    requires
        i <= j,
    ensures
        units_upto(moves, i) <= units_upto(moves, j),
    decreases j - i,
{
    if i < j {
        lemma_units_monotone(moves, i, j - 1);
    }
}

/// One step keeps the head and tail within one more unit of the origin.
proof fn lemma_sim_step_bound(m: Move, st: RopeState, b: int)
    requires
        -b <= st.head.0 <= b,
        -b <= st.head.1 <= b,
        -b <= st.tail.0 <= b,
        -b <= st.tail.1 <= b,
    ensures
        -(b + 1) <= sim_step(m, st).head.0 <= b + 1,
        -(b + 1) <= sim_step(m, st).head.1 <= b + 1,
        -(b + 1) <= sim_step(m, st).tail.0 <= b + 1,
        -(b + 1) <= sim_step(m, st).tail.1 <= b + 1,
{
}

fn pair_has(v: &Vec<(i32, i32)>, p: (i32, i32)) -> (b: bool)
    ensures
        b == v@.contains(p),
{
    let mut i: usize = 0;
    while i < v.len()
        invariant
            i <= v@.len(),
            forall|k: int| 0 <= k < i ==> v@[k] != p,
        decreases v@.len() - i,
    {
        if v[i].0 == p.0 && v[i].1 == p.1 {
            proof {
                assert(v@[i as int] == p);
            }
            return true;
        }
        i = i + 1;
    }
    false
}

/// How many distinct cells the tail visits while the instructions run.
#[verifier::loop_isolation(false)]
pub fn day09a(moves: &Vec<Move>) -> (r: usize)
    requires
        units_upto(moves@, moves@.len() as int) <= 0x4000_0000,
    ensures
        r == sim_upto(moves@, moves@.len() as int).visited.len(),
{
    let mut head: (i32, i32) = (0, 0);
    let mut tail: (i32, i32) = (0, 0);
    let mut visited: Vec<(i32, i32)> = Vec::new();
    visited.push(tail);
    let ghost mut vis: Seq<(int, int)> = seq![(0int, 0int)];

    let mut i: usize = 0;
    while i < moves.len()
        invariant
            i <= moves@.len(),
            head.0 as int == sim_upto(moves@, i as int).head.0,
            head.1 as int == sim_upto(moves@, i as int).head.1,
            tail.0 as int == sim_upto(moves@, i as int).tail.0,
            tail.1 as int == sim_upto(moves@, i as int).tail.1,
            vis == sim_upto(moves@, i as int).visited,
            visited@.len() == vis.len(),
            forall|k: int|
                0 <= k < vis.len() ==> (#[trigger] visited@[k]).0 == vis[k].0 && visited@[k].1
                    == vis[k].1,
            -units_upto(moves@, i as int) <= head.0 <= units_upto(moves@, i as int),
            -units_upto(moves@, i as int) <= head.1 <= units_upto(moves@, i as int),
            -units_upto(moves@, i as int) <= tail.0 <= units_upto(moves@, i as int),
            -units_upto(moves@, i as int) <= tail.1 <= units_upto(moves@, i as int),
        decreases moves@.len() - i,
    {
        let m = moves[i];
        let times = *get_times(&m);
        proof {
            assert(times == times_of(m));
            lemma_units_monotone(moves@, i + 1, moves@.len() as int);
            assert(units_upto(moves@, i + 1) == units_upto(moves@, i as int) + times_of(m));
        }
        let ghost base = sim_upto(moves@, i as int);
        let ghost ubase = units_upto(moves@, i as int);
        let mut j: usize = 0;
        while j < times
            invariant
                j <= times,
                times == times_of(m),
                ubase + times <= 0x4000_0000,
                head.0 as int == sim_move(m, j as nat, base).head.0,
                head.1 as int == sim_move(m, j as nat, base).head.1,
                tail.0 as int == sim_move(m, j as nat, base).tail.0,
                tail.1 as int == sim_move(m, j as nat, base).tail.1,
                vis == sim_move(m, j as nat, base).visited,
                visited@.len() == vis.len(),
                forall|k: int|
                    0 <= k < vis.len() ==> (#[trigger] visited@[k]).0 == vis[k].0 && visited@[k].1
                        == vis[k].1,
                -(ubase + j) <= head.0 <= ubase + j,
                -(ubase + j) <= head.1 <= ubase + j,
                -(ubase + j) <= tail.0 <= ubase + j,
                -(ubase + j) <= tail.1 <= ubase + j,
            decreases times - j,
        {
            let ghost stm = sim_move(m, j as nat, base);
            proof {
                assert(sim_move(m, (j + 1) as nat, base) == sim_step(m, stm));
                lemma_sim_step_bound(m, stm, ubase + j);
            }
            head = move_head(&m, head);
            if !next_to(head, tail) {
                tail = move_tail(head, tail);
                let ghost tpair = (tail.0 as int, tail.1 as int);
                let had = pair_has(&visited, tail);
                proof {
                    if had {
                        let k = choose|k: int| 0 <= k < visited@.len() && visited@[k] == tail;
                        assert(vis[k] == tpair);
                        assert(vis.contains(tpair));
                    }
                    if vis.contains(tpair) {
                        let k = choose|k: int| 0 <= k < vis.len() && vis[k] == tpair;
                        assert(visited@[k] == tail);
                        assert(visited@.contains(tail));
                    }
                }
                if !had {
                    visited.push(tail);
                    proof {
                        vis = vis.push(tpair);
                    }
                }
            }
            j = j + 1;
        }
        i = i + 1;
    }
    visited.len()
}

} // verus!

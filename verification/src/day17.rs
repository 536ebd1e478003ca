//! Falling bricks in a narrow chamber: each brick is pushed sideways by
//! wind and drops until it lands on the floor or on stored cells.

use vstd::prelude::*;

verus! {

/// One of the five brick shapes: its cells as (column, row-from-top)
/// offsets, its height, and its width.
#[derive(Debug)]
pub enum Brick {
    Straight(Vec<(i32, i32)>, i32, i32),
    Cross(Vec<(i32, i32)>, i32, i32),
    L(Vec<(i32, i32)>, i32, i32),
    I(Vec<(i32, i32)>, i32, i32),
    Square(Vec<(i32, i32)>, i32, i32),
}

/// The cell offsets of a brick.
pub open spec fn brick_cells(b: Brick) -> Seq<(i32, i32)> {
    match b {
        Brick::Straight(cells, _, _) => cells@,
        Brick::Cross(cells, _, _) => cells@,
        Brick::L(cells, _, _) => cells@,
        Brick::I(cells, _, _) => cells@,
        Brick::Square(cells, _, _) => cells@,
    }
}

/// The recorded height of a brick.
pub open spec fn brick_height(b: Brick) -> int {
    match b {
        Brick::Straight(_, height, _) => height as int,
        Brick::Cross(_, height, _) => height as int,
        Brick::L(_, height, _) => height as int,
        Brick::I(_, height, _) => height as int,
        Brick::Square(_, height, _) => height as int,
    }
}

/// The recorded width of a brick.
pub open spec fn brick_width(b: Brick) -> int {
    match b {
        Brick::Straight(_, _, width) => width as int,
        Brick::Cross(_, _, width) => width as int,
        Brick::L(_, _, width) => width as int,
        Brick::I(_, _, width) => width as int,
        Brick::Square(_, _, width) => width as int,
    }
}

impl Brick {
    /// The height of the shape.
    pub fn height(&self) -> (r: i32)
        ensures
            r as int == brick_height(*self),
    {
        match self {
            Brick::Straight(_, height, _) => *height,
            Brick::Cross(_, height, _) => *height,
            Brick::L(_, height, _) => *height,
            Brick::I(_, height, _) => *height,
            Brick::Square(_, height, _) => *height,
        }
    }

    /// The width of the shape.
    pub fn width(&self) -> (r: i32)
        ensures
            r as int == brick_width(*self),
    {
        match self {
            Brick::Straight(_, _, width) => *width,
            Brick::Cross(_, _, width) => *width,
            Brick::L(_, _, width) => *width,
            Brick::I(_, _, width) => *width,
            Brick::Square(_, _, width) => *width,
        }
    }

    /// The cell offsets of the shape.
    pub fn bricks(&self) -> (r: &Vec<(i32, i32)>)
        ensures
            r@ == brick_cells(*self),
    {
        match self {
            Brick::Straight(cells, _, _) => cells,
            Brick::Cross(cells, _, _) => cells,
            Brick::L(cells, _, _) => cells,
            Brick::I(cells, _, _) => cells,
            Brick::Square(cells, _, _) => cells,
        }
    }
}

/// The chamber: the cells already stored, the tallest stored row, the
/// fixed width, and the falling brick's current position (its top-left
/// reference cell).
pub struct Chamber {
    pub bricks: Vec<(i32, i32)>,
    pub height: i32,
    pub width: i32,
    pub position: (i32, i32),
}

/// Whether a brick whose reference cell sits at `(px, py)` overlaps a
/// stored cell.
pub open spec fn placed_hits(stored: Seq<(i32, i32)>, cells: Seq<(i32, i32)>, px: int, py: int) -> bool {
    exists|k: int, m: int|
        0 <= k < cells.len() && 0 <= m < stored.len() && (#[trigger] stored[m]).0 == px + (
        #[trigger] cells[k]).0 && stored[m].1 == py - cells[k].1
}

/// A chamber whose cells and position stay in a comfortable range, so
/// that one step of motion cannot overflow.
pub open spec fn chamber_in_range(c: Chamber) -> bool {
    &&& -0x4000_0000 <= c.position.0 <= 0x4000_0000
    &&& -0x4000_0000 <= c.position.1 <= 0x4000_0000
}

/// Cell offsets in a comfortable range.
pub open spec fn cells_in_range(cells: Seq<(i32, i32)>) -> bool {
    forall|k: int|
        0 <= k < cells.len() ==> -0x1000 <= (#[trigger] cells[k]).0 <= 0x1000 && -0x1000
            <= cells[k].1 <= 0x1000
}

/// Whether a brick at `(px, py)` overlaps a stored cell, checked cell by
/// cell.
#[verifier::loop_isolation(false)]
fn hits_stored(stored: &Vec<(i32, i32)>, cells: &Vec<(i32, i32)>, px: i32, py: i32) -> (b: bool)
    requires
        -0x4000_1001 <= px <= 0x4000_1001,
        -0x4000_1001 <= py <= 0x4000_1001,
        cells_in_range(cells@),
    ensures
        b == placed_hits(stored@, cells@, px as int, py as int),
{
    let mut k: usize = 0;
    while k < cells.len()
        invariant
            k <= cells@.len(),
            forall|k2: int, m: int|
                0 <= k2 < k && 0 <= m < stored@.len() ==> !((#[trigger] stored@[m]).0 == px + (
                #[trigger] cells@[k2]).0 && stored@[m].1 == py - cells@[k2].1),
        decreases cells@.len() - k,
    {
        let (i, j) = cells[k];
        let cx = px + i;
        let cy = py - j;
        let mut m: usize = 0;
        while m < stored.len()
            invariant
                m <= stored@.len(),
                cx == px + cells@[k as int].0,
                cy == py - cells@[k as int].1,
                forall|m2: int|
                    0 <= m2 < m ==> !((#[trigger] stored@[m2]).0 == cx && stored@[m2].1 == cy),
            decreases stored@.len() - m,
        {
            let (sx, sy) = stored[m];
            if sx == cx && sy == cy {
                proof {
                    assert(stored@[m as int].0 == px + cells@[k as int].0 && stored@[m as int].1
                        == py - cells@[k as int].1);
                }
                return true;
            }
            m = m + 1;
        }
        k = k + 1;
    }
    false
}

impl Chamber {
    /// Moves the falling brick one cell to the left, unless a chamber
    /// wall or a stored cell is in the way.
    #[verifier::loop_isolation(false)]
    pub fn left(&mut self, brick: &Brick)
        requires
            chamber_in_range(*old(self)),
            cells_in_range(brick_cells(*brick)),
        ensures
            final(self).bricks == old(self).bricks,
            final(self).height == old(self).height,
            final(self).width == old(self).width,
            final(self).position == (if (exists|k: int|
                0 <= k < brick_cells(*brick).len() && old(self).position.0 + (
                #[trigger] brick_cells(*brick)[k]).0 - 1 < 1) || placed_hits(
                old(self).bricks@,
                brick_cells(*brick),
                old(self).position.0 - 1,
                old(self).position.1 as int,
            ) {
                old(self).position
            } else {
                ((old(self).position.0 - 1) as i32, old(self).position.1)
            }),
    {
        let (x, y) = self.position;
        let cells = brick.bricks();
        let mut k: usize = 0;
        while k < cells.len()
            invariant
                k <= cells@.len(),
                forall|k2: int| 0 <= k2 < k ==> x + (#[trigger] cells@[k2]).0 - 1 >= 1,
            decreases cells@.len() - k,
        {
            let (i, _) = cells[k];
            if x + i - 1 < 1 {
                return ;
            }
            k = k + 1;
        }
        if !hits_stored(&self.bricks, cells, x - 1, y) {
            self.position = (x - 1, y);
        }
    }

    /// Moves the falling brick one cell to the right, unless the right
    /// wall or a stored cell is in the way.
    #[verifier::loop_isolation(false)]
    pub fn right(&mut self, brick: &Brick)
        requires
            chamber_in_range(*old(self)),
            cells_in_range(brick_cells(*brick)),
        ensures
            final(self).bricks == old(self).bricks,
            final(self).height == old(self).height,
            final(self).width == old(self).width,
            final(self).position == (if (exists|k: int|
                0 <= k < brick_cells(*brick).len() && old(self).position.0 + (
                #[trigger] brick_cells(*brick)[k]).0 + 1 > 7) || placed_hits(
                old(self).bricks@,
                brick_cells(*brick),
                old(self).position.0 + 1,
                old(self).position.1 as int,
            ) {
                old(self).position
            } else {
                ((old(self).position.0 + 1) as i32, old(self).position.1)
            }),
    {
        let (x, y) = self.position;
        let cells = brick.bricks();
        let mut k: usize = 0;
        while k < cells.len()
            invariant
                k <= cells@.len(),
                forall|k2: int| 0 <= k2 < k ==> x + (#[trigger] cells@[k2]).0 + 1 <= 7,
            decreases cells@.len() - k,
        {
            let (i, _) = cells[k];
            if x + i + 1 > 7 {
                return ;
            }
            k = k + 1;
        }
        if !hits_stored(&self.bricks, cells, x + 1, y) {
            self.position = (x + 1, y);
        }
    }

    /// Drops the falling brick one cell, unless the floor or a stored
    /// cell is in the way; reports whether it moved.
    #[verifier::loop_isolation(false)]
    pub fn down(&mut self, brick: &Brick) -> (moved: bool)
        requires
            chamber_in_range(*old(self)),
            cells_in_range(brick_cells(*brick)),
        ensures
            final(self).bricks == old(self).bricks,
            final(self).height == old(self).height,
            final(self).width == old(self).width,
            moved == (!(exists|k: int|
                0 <= k < brick_cells(*brick).len() && old(self).position.1 - (
                #[trigger] brick_cells(*brick)[k]).1 - 1 < 1) && !placed_hits(
                old(self).bricks@,
                brick_cells(*brick),
                old(self).position.0 as int,
                old(self).position.1 - 1,
            )),
            final(self).position == (if moved {
                (old(self).position.0, (old(self).position.1 - 1) as i32)
            } else {
                old(self).position
            }),
    {
        let (x, y) = self.position;
        let cells = brick.bricks();
        let mut k: usize = 0;
        while k < cells.len()
            invariant
                k <= cells@.len(),
                forall|k2: int| 0 <= k2 < k ==> y - (#[trigger] cells@[k2]).1 - 1 >= 1,
            decreases cells@.len() - k,
        {
            let (_, j) = cells[k];
            if y - j - 1 < 1 {
                return false;
            }
            k = k + 1;
        }
        if !hits_stored(&self.bricks, cells, x, y - 1) {
            self.position = (x, y - 1);
            return true;
        }
        false
    }

    /// Puts the falling brick back to its drop position: three cells off
    /// the left wall and three rows above the stored pile.
    pub fn reset_position(&mut self, brick: &Brick)
        requires
            -0x4000_0000 <= old(self).height <= 0x4000_0000,
            -0x1000 <= brick_height(*brick) <= 0x1000,
        ensures
            final(self).bricks == old(self).bricks,
            final(self).height == old(self).height,
            final(self).width == old(self).width,
            final(self).position.0 == 3,
            final(self).position.1 as int == old(self).height + brick_height(*brick) + 3,
    {
        // position is measured from the top left corner
        self.position = (3, self.height + brick.height() + 3);
    }

    /// Stores the falling brick's cells at its current position and
    /// raises the recorded height to the tallest stored row.
    #[verifier::loop_isolation(false)]
    pub fn store_brick(&mut self, brick: &mut Brick)
        requires
            chamber_in_range(*old(self)),
            cells_in_range(brick_cells(*old(brick))),
            old(self).bricks@.len() + brick_cells(*old(brick)).len() >= 1,
            forall|m: int|
                0 <= m < old(self).bricks@.len() ==> -0x4000_2000 <= (
                #[trigger] old(self).bricks@[m]).1 <= 0x4000_2000,
        ensures
            *final(brick) == *old(brick),
            final(self).width == old(self).width,
            final(self).position == old(self).position,
            final(self).bricks@.len() == old(self).bricks@.len() + brick_cells(
                *old(brick),
            ).len(),
            forall|m: int|
                0 <= m < old(self).bricks@.len() ==> final(self).bricks@[m] == old(
                    self,
                ).bricks@[m],
            forall|k: int|
                0 <= k < brick_cells(*old(brick)).len()
                    ==> (#[trigger] final(self).bricks@[old(self).bricks@.len() + k]).0 == old(
                    self,
                ).position.0 + brick_cells(*old(brick))[k].0 && final(self).bricks@[old(
                    self,
                ).bricks@.len() + k].1 == old(self).position.1 - brick_cells(*old(brick))[k].1,
            forall|m: int|
                0 <= m < final(self).bricks@.len() ==> (#[trigger] final(self).bricks@[m]).1
                    <= final(self).height,
            exists|m: int|
                0 <= m < final(self).bricks@.len() && (#[trigger] final(self).bricks@[m]).1
                    == final(self).height,
    {
        let (x, y) = self.position;
        let cells = brick.bricks();
        let ghost old_stored = self.bricks@;
        let mut k: usize = 0;
        while k < cells.len()
            invariant
                k <= cells@.len(),
                cells@ == brick_cells(*brick),
                self.width == old(self).width,
                self.position == old(self).position,
                self.height == old(self).height,
                self.bricks@.len() == old_stored.len() + k,
                forall|m: int| 0 <= m < old_stored.len() ==> self.bricks@[m] == old_stored[m],
                forall|k2: int|
                    0 <= k2 < k ==> (#[trigger] self.bricks@[old_stored.len() + k2]).0 == x
                        + cells@[k2].0 && self.bricks@[old_stored.len() + k2].1 == y
                        - cells@[k2].1,
                forall|m: int|
                    0 <= m < self.bricks@.len() ==> -0x4000_2000 <= (
                    #[trigger] self.bricks@[m]).1 <= 0x4000_2000,
            decreases cells@.len() - k,
        {
            let (i, j) = cells[k];
            self.bricks.push((i + x, y - j));
            k = k + 1;
        }

        let mut best: i32 = self.bricks[0].1;
        let ghost n = self.bricks@.len();
        let mut m: usize = 1;
        proof {
            assert(self.bricks@[0].1 <= best && (exists|m2: int|
                0 <= m2 < 1 && (#[trigger] self.bricks@[m2]).1 == best));
        }
        while m < self.bricks.len()
            invariant
                1 <= m <= n,
                n == self.bricks@.len(),
                forall|m2: int| 0 <= m2 < m ==> (#[trigger] self.bricks@[m2]).1 <= best,
                exists|m2: int| 0 <= m2 < m && (#[trigger] self.bricks@[m2]).1 == best,
            decreases n - m,
        {
            let (_, j) = self.bricks[m];
            if j > best {
                best = j;
            }
            m = m + 1;
        }
        self.height = best;
    }
}

/// The five brick shapes, in drop order.
pub fn load_bricks() -> (r: Vec<Brick>)
    ensures
        r@.len() == 5,
        r@[0] matches Brick::Straight(c, h, w) && c@ == seq![(0i32, 0i32), (1i32, 0i32), (2i32, 0i32), (3i32, 0i32)] && h == 1 && w == 4,
        r@[1] matches Brick::Cross(c, h, w) && c@ == seq![(1i32, 0i32), (0i32, 1i32), (1i32, 1i32), (2i32, 1i32), (1i32, 2i32)] && h == 3 && w == 3,
        r@[2] matches Brick::L(c, h, w) && c@ == seq![(2i32, 0i32), (2i32, 1i32), (2i32, 2i32), (1i32, 2i32), (0i32, 2i32)] && h == 3 && w == 3,
        r@[3] matches Brick::I(c, h, w) && c@ == seq![(0i32, 0i32), (0i32, 1i32), (0i32, 2i32), (0i32, 3i32)] && h == 4 && w == 1,
        r@[4] matches Brick::Square(c, h, w) && c@ == seq![(0i32, 0i32), (0i32, 1i32), (1i32, 0i32), (1i32, 1i32)] && h == 2 && w == 2,
{
    let mut v: Vec<Brick> = Vec::new();
    v.push(Brick::Straight(vec![(0, 0), (1, 0), (2, 0), (3, 0)], 1, 4));
    v.push(Brick::Cross(vec![(1, 0), (0, 1), (1, 1), (2, 1), (1, 2)], 3, 3));
    v.push(Brick::L(vec![(2, 0), (2, 1), (2, 2), (1, 2), (0, 2)], 3, 3));
    v.push(Brick::I(vec![(0, 0), (0, 1), (0, 2), (0, 3)], 4, 1));
    v.push(Brick::Square(vec![(0, 0), (0, 1), (1, 0), (1, 1)], 2, 2));
    proof {
        assert(v@[0] matches Brick::Straight(c, h, w) && c@ =~= seq![(0i32, 0i32), (1i32, 0i32), (2i32, 0i32), (3i32, 0i32)] && h == 1 && w == 4);
        assert(v@[1] matches Brick::Cross(c, h, w) && c@ =~= seq![(1i32, 0i32), (0i32, 1i32), (1i32, 1i32), (2i32, 1i32), (1i32, 2i32)] && h == 3 && w == 3);
        assert(v@[2] matches Brick::L(c, h, w) && c@ =~= seq![(2i32, 0i32), (2i32, 1i32), (2i32, 2i32), (1i32, 2i32), (0i32, 2i32)] && h == 3 && w == 3);
        assert(v@[3] matches Brick::I(c, h, w) && c@ =~= seq![(0i32, 0i32), (0i32, 1i32), (0i32, 2i32), (0i32, 3i32)] && h == 4 && w == 1);
        assert(v@[4] matches Brick::Square(c, h, w) && c@ =~= seq![(0i32, 0i32), (0i32, 1i32), (1i32, 0i32), (1i32, 1i32)] && h == 2 && w == 2);
    }
    v
}

} // verus!

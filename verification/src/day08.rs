//! Trees on a square grid: which trees can be seen from outside the
//! grid, and how far each tree can see in the four directions.

use vstd::prelude::*;

verus! {

/// The height at column `x` of row `y`.
pub open spec fn at(g: Seq<Vec<u32>>, x: int, y: int) -> u32 {
    g[y]@[x]
}

/// A square forest of side `width`.
pub open spec fn forest_wf(g: Seq<Vec<u32>>, width: int) -> bool {
    &&& g.len() == width
    &&& forall|y: int| 0 <= y < width ==> (#[trigger] g[y])@.len() == width
}

/// Whether the tree at `(x, y)` is visible from outside: along at least
/// one of the four directions every tree before it is strictly lower.
pub open spec fn visible_at(g: Seq<Vec<u32>>, x: int, y: int, width: int) -> bool {
    ||| forall|i: int| 0 <= i < y ==> at(g, x, i) < at(g, x, y)
    ||| forall|i: int| y < i < width ==> at(g, x, i) < at(g, x, y)
    ||| forall|i: int| 0 <= i < x ==> at(g, i, y) < at(g, x, y)
    ||| forall|i: int| x < i < width ==> at(g, i, y) < at(g, x, y)
}

/// Whether `d` is the viewing distance towards lower indices along one
/// line of sight: the number of trees seen stepping away, stopping at
/// (and counting) the first one at least as tall, or at the edge.
pub open spec fn is_look_down(heights: Seq<u32>, pos: int, cand: u32, d: int) -> bool {
    &&& 0 <= d <= pos
    &&& forall|j: int| pos - d < j < pos ==> heights[j] < cand
    &&& d < pos ==> (d >= 1 && heights[pos - d] >= cand)
    &&& pos > 0 ==> d >= 1
}

/// Whether `d` is the viewing distance towards higher indices.
pub open spec fn is_look_up(heights: Seq<u32>, pos: int, cand: u32, width: int, d: int) -> bool {
    &&& 0 <= d <= width - 1 - pos
    &&& forall|j: int| pos < j < pos + d ==> heights[j] < cand
    &&& d < width - 1 - pos ==> (d >= 1 && heights[pos + d] >= cand)
    &&& pos < width - 1 ==> d >= 1
}

/// The column of heights at `x`, top to bottom.
pub open spec fn column(g: Seq<Vec<u32>>, x: int, width: int) -> Seq<u32> {
    Seq::new(width as nat, |y: int| at(g, x, y))
}

/// The row of heights at `y`, left to right.
pub open spec fn row(g: Seq<Vec<u32>>, y: int, width: int) -> Seq<u32> {
    Seq::new(width as nat, |x: int| at(g, x, y))
}

/// Whether `s` is the scenic score of `(x, y)`: the product of the four
/// viewing distances.
pub open spec fn is_scenic(g: Seq<Vec<u32>>, x: int, y: int, width: int, s: int) -> bool {
    exists|dl: int, dr: int, du: int, dd: int|
        {
            &&& #[trigger] is_look_down(row(g, y, width), x, at(g, x, y), dl)
            &&& #[trigger] is_look_up(row(g, y, width), x, at(g, x, y), width, dr)
            &&& #[trigger] is_look_down(column(g, x, width), y, at(g, x, y), du)
            &&& #[trigger] is_look_up(column(g, x, width), y, at(g, x, y), width, dd)
            &&& s == du * dd * dl * dr
        }
}

/// Whether the scenic score of `(x, y)` is at most `bound`.
pub open spec fn scenic_bounded(g: Seq<Vec<u32>>, x: int, y: int, width: int, bound: int) -> bool {
    exists|s: int| #[trigger] is_scenic(g, x, y, width, s) && s <= bound
}

/// How far the tree at `(x, y)` sees in each direction, multiplied: its
/// scenic score.
pub fn scenic(forest: &Vec<Vec<u32>>, x: usize, y: usize, width: usize) -> (s: usize)
    requires
        forest_wf(forest@, width as int),
        x < width,
        y < width,
        width <= 0xff,
    ensures
        is_scenic(forest@, x as int, y as int, width as int, s as int),
{
    let candidate = forest[y][x];
    let ghost rw = row(forest@, y as int, width as int);
    let ghost cl = column(forest@, x as int, width as int);

    // go left
    let mut left_trees: usize = 0;
    let mut xx: usize = x;
    while xx > 0
        invariant_except_break
            forest_wf(forest@, width as int),
            x < width,
            y < width,
            width <= 0xffff,
            candidate == at(forest@, x as int, y as int),
            rw == row(forest@, y as int, width as int),
            cl == column(forest@, x as int, width as int),
            xx <= x,
            left_trees == x - xx,
            forall|j: int| x - left_trees < j < x ==> rw[j] < candidate,
            left_trees > 0 ==> rw[x as int - left_trees] < candidate,
        ensures
            is_look_down(rw, x as int, candidate, left_trees as int),
        decreases xx,
    {
        let tree = forest[y][xx - 1];
        left_trees = left_trees + 1;
        xx = xx - 1;
        if tree >= candidate {
            break ;
        }
    }

    // go right
    let mut right_trees: usize = 0;
    let mut xr: usize = x + 1;
    while xr < width
        invariant_except_break
            forest_wf(forest@, width as int),
            x < width,
            y < width,
            width <= 0xffff,
            candidate == at(forest@, x as int, y as int),
            rw == row(forest@, y as int, width as int),
            cl == column(forest@, x as int, width as int),
            x + 1 <= xr <= width,
            right_trees == xr - x - 1,
            forall|j: int| x < j < x + right_trees ==> rw[j] < candidate,
            right_trees > 0 ==> rw[x as int + right_trees] < candidate,
        ensures
            is_look_up(rw, x as int, candidate, width as int, right_trees as int),
        decreases width - xr,
    {
        let tree = forest[y][xr];
        right_trees = right_trees + 1;
        xr = xr + 1;
        if tree >= candidate {
            break ;
        }
    }

    // go up
    let mut up_trees: usize = 0;
    let mut yy: usize = y;
    while yy > 0
        invariant_except_break
            forest_wf(forest@, width as int),
            x < width,
            y < width,
            width <= 0xffff,
            candidate == at(forest@, x as int, y as int),
            rw == row(forest@, y as int, width as int),
            cl == column(forest@, x as int, width as int),
            yy <= y,
            up_trees == y - yy,
            forall|j: int| y - up_trees < j < y ==> cl[j] < candidate,
            up_trees > 0 ==> cl[y as int - up_trees] < candidate,
        ensures
            is_look_down(cl, y as int, candidate, up_trees as int),
        decreases yy,
    {
        let tree = forest[yy - 1][x];
        up_trees = up_trees + 1;
        yy = yy - 1;
        if tree >= candidate {
            break ;
        }
    }

    // go down
    let mut down_trees: usize = 0;
    let mut yd: usize = y + 1;
    while yd < width
        invariant_except_break
            forest_wf(forest@, width as int),
            x < width,
            y < width,
            width <= 0xffff,
            candidate == at(forest@, x as int, y as int),
            rw == row(forest@, y as int, width as int),
            cl == column(forest@, x as int, width as int),
            y + 1 <= yd <= width,
            down_trees == yd - y - 1,
            forall|j: int| y < j < y + down_trees ==> cl[j] < candidate,
            down_trees > 0 ==> cl[y as int + down_trees] < candidate,
        ensures
            is_look_up(cl, y as int, candidate, width as int, down_trees as int),
        decreases width - yd,
    {
        let tree = forest[yd][x];
        down_trees = down_trees + 1;
        yd = yd + 1;
        if tree >= candidate {
            break ;
        }
    }

    proof {
        assert(up_trees * down_trees <= 0xff * 0xff && up_trees * down_trees * left_trees <= 0xff
            * 0xff * 0xff && up_trees * down_trees * left_trees * right_trees <= 0xff * 0xff
            * 0xff * 0xff) by (nonlinear_arith)
            requires
                up_trees <= 0xff,
                down_trees <= 0xff,
                left_trees <= 0xff,
                right_trees <= 0xff,
        {}
    }
    up_trees * down_trees * left_trees * right_trees
}

/// Whether the tree at `(x, y)` is visible from outside the grid.
#[verifier::loop_isolation(false)]
pub fn is_visible(forest: &Vec<Vec<u32>>, x: usize, y: usize, width: usize) -> (b: bool)
    requires
        forest_wf(forest@, width as int),
        x < width,
        y < width,
    ensures
        b == visible_at(forest@, x as int, y as int, width as int),
{
    let candidate = forest[y][x];

    // check the run above
    let mut clear = true;
    let mut i: usize = 0;
    while i < y
        invariant
            i <= y,
            clear == (forall|k: int| 0 <= k < i ==> at(forest@, x as int, k) < candidate),
        decreases y - i,
    {
        let tree = forest[i][x];
        proof {
            assert(at(forest@, x as int, i as int) == tree);
        }
        if tree >= candidate {
            clear = false;
        }
        i = i + 1;
    }
    if clear {
        return true;
    }

    // check the run below
    clear = true;
    let mut i2: usize = y + 1;
    while i2 < width
        invariant
            y + 1 <= i2 <= width,
            clear == (forall|k: int| y < k < i2 ==> at(forest@, x as int, k) < candidate),
        decreases width - i2,
    {
        let tree = forest[i2][x];
        proof {
            assert(at(forest@, x as int, i2 as int) == tree);
        }
        if tree >= candidate {
            clear = false;
        }
        i2 = i2 + 1;
    }
    if clear {
        return true;
    }

    // check the run to the left
    clear = true;
    let mut i3: usize = 0;
    while i3 < x
        invariant
            i3 <= x,
            clear == (forall|k: int| 0 <= k < i3 ==> at(forest@, k, y as int) < candidate),
        decreases x - i3,
    {
        let tree = forest[y][i3];
        proof {
            assert(at(forest@, i3 as int, y as int) == tree);
        }
        if tree >= candidate {
            clear = false;
        }
        i3 = i3 + 1;
    }
    if clear {
        return true;
    }

    // check the run to the right
    clear = true;
    let mut i4: usize = x + 1;
    while i4 < width
        invariant
            x + 1 <= i4 <= width,
            clear == (forall|k: int| x < k < i4 ==> at(forest@, k, y as int) < candidate),
        decreases width - i4,
    {
        let tree = forest[y][i4];
        proof {
            assert(at(forest@, i4 as int, y as int) == tree);
        }
        if tree >= candidate {
            clear = false;
        }
        i4 = i4 + 1;
    }

    clear
}

/// The number of visible trees in the rows from `y` down, with the count
/// inside row `y` starting at column `x`.
pub open spec fn count_visible_from(g: Seq<Vec<u32>>, width: int, x: int, y: int) -> int
    decreases width - y, width - x,
{
    if y < 0 || y >= width {
        0
    } else if x < 0 || x >= width {
        count_visible_from(g, width, 0, y + 1)
    } else {
        (if visible_at(g, x, y, width) {
            1int
        } else {
            0int
        }) + count_visible_from(g, width, x + 1, y)
    }
}

/// The number of trees visible from outside the grid.
#[verifier::loop_isolation(false)]
pub fn day08a(forest: &Vec<Vec<u32>>, width: usize) -> (n: usize)
    requires
        forest_wf(forest@, width as int),
        width <= 0xffff,
    ensures
        n == count_visible_from(forest@, width as int, 0, 0),
{
    let mut count: usize = 0;
    let mut y: usize = 0;
    while y < width
        invariant
            y <= width,
            count + count_visible_from(forest@, width as int, 0, y as int)
                == count_visible_from(forest@, width as int, 0, 0),
            count <= y * width,
        decreases width - y,
    {
        let mut x: usize = 0;
        while x < width
            invariant
                x <= width,
                y < width,
                count + count_visible_from(forest@, width as int, x as int, y as int)
                    == count_visible_from(forest@, width as int, 0, 0),
                count <= y * width + x,
            decreases width - x,
        {
            proof {
                lemma_count_visible_bounds(forest@, width as int, x as int, y as int);
                assert(y * width + x < 0xffff * 0xffff + 0xffff) by (nonlinear_arith)
                    requires
                        y < width,
                        x < width,
                        width <= 0xffff,
                {}
            }
            if is_visible(forest, x, y, width) {
                count = count + 1;
            }
            x = x + 1;
        }
        proof {
            assert(y * width + width == (y + 1) * width) by (nonlinear_arith) {}
        }
        y = y + 1;
    }
    count
}

/// Suffix counts are non-negative.
proof fn lemma_count_visible_bounds(g: Seq<Vec<u32>>, width: int, x: int, y: int)
    ensures
        count_visible_from(g, width, x, y) >= 0,
    decreases width - y, width - x,
{
    if y < 0 || y >= width {
    } else if x < 0 || x >= width {
        lemma_count_visible_bounds(g, width, 0, y + 1);
    } else {
        lemma_count_visible_bounds(g, width, x + 1, y);
    }
}

/// The best scenic score at cell `(x, y)` or anywhere later in reading
/// order.
#[verifier::loop_isolation(false)]
pub fn day08b(forest: &Vec<Vec<u32>>, width: usize) -> (best: usize)
    requires
        forest_wf(forest@, width as int),
        1 <= width <= 0xff,
    ensures
        forall|x: int, y: int|
            0 <= x < width && 0 <= y < width ==> #[trigger] scenic_bounded(
                forest@,
                x,
                y,
                width as int,
                best as int,
            ),
        exists|x: int, y: int, s: int|
            0 <= x < width && 0 <= y < width && #[trigger] is_scenic(forest@, x, y, width as int, s)
                && s == best,
{
    let mut best: usize = scenic(forest, 0, 0, width);
    let mut y: usize = 0;
    while y < width
        invariant
            y <= width,
            forall|x2: int, y2: int|
                0 <= x2 < width && 0 <= y2 < y ==> #[trigger] scenic_bounded(
                    forest@,
                    x2,
                    y2,
                    width as int,
                    best as int,
                ),
            exists|x2: int, y2: int, s: int|
                0 <= x2 < width && 0 <= y2 < width && #[trigger] is_scenic(
                    forest@,
                    x2,
                    y2,
                    width as int,
                    s,
                ) && s == best,
        decreases width - y,
    {
        let mut x: usize = 0;
        while x < width
            invariant
                x <= width,
                y < width,
                forall|x2: int, y2: int|
                    0 <= x2 < width && 0 <= y2 < y ==> #[trigger] scenic_bounded(
                        forest@,
                        x2,
                        y2,
                        width as int,
                        best as int,
                    ),
                forall|x2: int|
                    0 <= x2 < x ==> #[trigger] scenic_bounded(
                        forest@,
                        x2,
                        y as int,
                        width as int,
                        best as int,
                    ),
                exists|x2: int, y2: int, s: int|
                    0 <= x2 < width && 0 <= y2 < width && #[trigger] is_scenic(
                        forest@,
                        x2,
                        y2,
                        width as int,
                        s,
                    ) && s == best,
            decreases width - x,
        {
            let s = scenic(forest, x, y, width);
            if s > best {
                proof {
                    assert forall|x2: int, y2: int|
                        0 <= x2 < width && 0 <= y2 < y implies #[trigger] scenic_bounded(
                        forest@,
                        x2,
                        y2,
                        width as int,
                        s as int,
                    ) by {
                        assert(scenic_bounded(forest@, x2, y2, width as int, best as int));
                        let s3 = choose|s3: int|
                            #[trigger] is_scenic(forest@, x2, y2, width as int, s3) && s3
                                <= best as int;
                        assert(is_scenic(forest@, x2, y2, width as int, s3) && s3 <= s);
                    }
                    assert forall|x2: int| 0 <= x2 < x implies #[trigger] scenic_bounded(
                        forest@,
                        x2,
                        y as int,
                        width as int,
                        s as int,
                    ) by {
                        assert(scenic_bounded(forest@, x2, y as int, width as int, best as int));
                        let s3 = choose|s3: int|
                            #[trigger] is_scenic(forest@, x2, y as int, width as int, s3) && s3
                                <= best as int;
                        assert(is_scenic(forest@, x2, y as int, width as int, s3) && s3 <= s);
                    }
                }
                best = s;
            }
            proof {
                assert(scenic_bounded(forest@, x as int, y as int, width as int, best as int));
            }
            x = x + 1;
        }
        y = y + 1;
    }
    best
}

} // verus!

use advent::grid::{Blizzard, Coord, Direction, Grid, SearchError};
use advent::schedule::build_schedule;
use advent::search::shortest_arrival;
use advent::trip::chained_trip;

fn basin_from(rows_text: &[&str]) -> (Grid, Vec<Blizzard>) {
    let rows = rows_text.len();
    let cols = rows_text[0].len();
    let mut walls = vec![vec![false; cols]; rows];
    let mut blizzards = Vec::new();
    for (r, line) in rows_text.iter().enumerate() {
        for (c, b) in line.bytes().enumerate() {
            let dir = match b {
                b'#' => {
                    walls[r][c] = true;
                    continue;
                }
                b'.' => continue,
                b'^' => Direction::Up,
                b'v' => Direction::Down,
                b'<' => Direction::Left,
                b'>' => Direction::Right,
                _ => panic!("unknown cell"),
            };
            blizzards.push(Blizzard {
                pos: Coord { row: r, col: c },
                dir,
            });
        }
    }
    (
        Grid {
            rows,
            cols,
            walls,
        },
        blizzards,
    )
}

fn example() -> (Grid, Vec<Blizzard>) {
    basin_from(&[
        "#.######",
        "#>>.<^<#",
        "#.<..<<#",
        "#>v.><>#",
        "#<^v^^>#",
        "######.#",
    ])
}

fn gcd(a: usize, b: usize) -> usize {
    if b == 0 {
        a
    } else {
        gcd(b, a % b)
    }
}

/// An independent simulation of the obstacles: their positions at time t.
fn simulate(blizzards: &[Blizzard], rows: usize, cols: usize, t: usize) -> Vec<(usize, usize)> {
    let mut out = Vec::new();
    for b in blizzards {
        let mut r = b.pos.row;
        let mut c = b.pos.col;
        for _ in 0..t {
            match b.dir {
                Direction::Up => r = if r == 1 { rows - 2 } else { r - 1 },
                Direction::Down => r = if r == rows - 2 { 1 } else { r + 1 },
                Direction::Left => c = if c == 1 { cols - 2 } else { c - 1 },
                Direction::Right => c = if c == cols - 2 { 1 } else { c + 1 },
            }
        }
        out.push((r, c));
    }
    out
}

/// An independent breadth-first reference search without any cycle-based
/// deduplication, bounded in time; used to cross-check optimality.
fn brute_shortest(
    grid: &Grid,
    blizzards: &[Blizzard],
    start: (usize, usize),
    end: (usize, usize),
    start_time: usize,
    max_time: usize,
) -> Option<usize> {
    let mut layer = vec![start];
    for t in start_time..start_time + max_time {
        if layer.iter().any(|&p| p == end) {
            return Some(t - start_time);
        }
        let occupied = simulate(blizzards, grid.rows, grid.cols, t + 1);
        let mut next: Vec<(usize, usize)> = Vec::new();
        for &(r, c) in &layer {
            let mut cands = vec![(r, c)];
            if r > 0 {
                cands.push((r - 1, c));
            }
            if r + 1 < grid.rows {
                cands.push((r + 1, c));
            }
            if c > 0 {
                cands.push((r, c - 1));
            }
            if c + 1 < grid.cols {
                cands.push((r, c + 1));
            }
            for q in cands {
                if !grid.walls[q.0][q.1] && !occupied.contains(&q) && !next.contains(&q) {
                    next.push(q);
                }
            }
        }
        layer = next;
    }
    if layer.iter().any(|&p| p == end) {
        return Some(max_time);
    }
    None
}

#[test]
fn find_shortest_path() {
    let (grid, blizzards) = example();
    let sched = build_schedule(&grid, &blizzards).unwrap();
    let start = Coord { row: 0, col: 1 };
    let end = Coord { row: 5, col: 6 };
    let actual = shortest_arrival(&grid, &sched, start, end, 0).unwrap();
    assert_eq!(actual, 18);
}

#[test]
fn find_shortest_path_when_going_back() {
    let (grid, blizzards) = example();
    let sched = build_schedule(&grid, &blizzards).unwrap();
    let start = Coord { row: 0, col: 1 };
    let end = Coord { row: 5, col: 6 };
    let waypoints = vec![start, end, start, end];
    let actual = chained_trip(&grid, &sched, &waypoints, 0).unwrap();
    assert_eq!(actual, 54);
}

#[test]
fn chained_trip_matches_sequential_searches() {
    let (grid, blizzards) = example();
    let sched = build_schedule(&grid, &blizzards).unwrap();
    let start = Coord { row: 0, col: 1 };
    let end = Coord { row: 5, col: 6 };
    let e1 = shortest_arrival(&grid, &sched, start, end, 0).unwrap();
    let e2 = shortest_arrival(&grid, &sched, end, start, e1).unwrap();
    let e3 = shortest_arrival(&grid, &sched, start, end, e1 + e2).unwrap();
    assert_eq!(e1, 18);
    assert_eq!(e2, 23);
    assert_eq!(e3, 13);
    let waypoints = vec![start, end, start, end];
    let total = chained_trip(&grid, &sched, &waypoints, 0).unwrap();
    assert_eq!(total, e1 + e2 + e3);
}

#[test]
fn zero_length_trip_returns_zero() {
    let (grid, blizzards) = example();
    let sched = build_schedule(&grid, &blizzards).unwrap();
    for t in [0, 1, 7, 100] {
        let p = Coord { row: 0, col: 1 };
        assert_eq!(shortest_arrival(&grid, &sched, p, p, t).unwrap(), 0);
        let q = Coord { row: 3, col: 3 };
        assert_eq!(shortest_arrival(&grid, &sched, q, q, t).unwrap(), 0);
    }
}

#[test]
fn walled_off_end_reports_no_path() {
    let (grid, blizzards) = basin_from(&[
        "#.###",
        "#.#.#",
        "#####",
    ]);
    let sched = build_schedule(&grid, &blizzards).unwrap();
    let start = Coord { row: 0, col: 1 };
    let end = Coord { row: 1, col: 3 };
    let res = shortest_arrival(&grid, &sched, start, end, 0);
    assert_eq!(res, Err(SearchError::NoPathFound));
}

#[test]
fn degenerate_interior_reports_invalid_grid() {
    let (grid, blizzards) = basin_from(&["#.#", "#.#"]);
    let res = build_schedule(&grid, &blizzards);
    assert_eq!(res.err(), Some(SearchError::InvalidGrid));
}

#[test]
fn obstacle_on_border_reports_out_of_bounds() {
    let (grid, mut blizzards) = example();
    blizzards.push(Blizzard {
        pos: Coord { row: 0, col: 0 },
        dir: Direction::Down,
    });
    let res = build_schedule(&grid, &blizzards);
    assert_eq!(res.err(), Some(SearchError::OutOfBoundsCoordinate));
}

#[test]
fn endpoint_outside_grid_reports_out_of_bounds() {
    let (grid, blizzards) = example();
    let sched = build_schedule(&grid, &blizzards).unwrap();
    let start = Coord { row: 0, col: 1 };
    let outside = Coord { row: 6, col: 1 };
    let res = shortest_arrival(&grid, &sched, start, outside, 0);
    assert_eq!(res, Err(SearchError::OutOfBoundsCoordinate));
}

#[test]
fn schedule_cycle_is_lcm_of_interior() {
    let (grid, blizzards) = example();
    let sched = build_schedule(&grid, &blizzards).unwrap();
    let iw = grid.rows - 2;
    let ih = grid.cols - 2;
    assert_eq!(sched.cycle, iw * ih / gcd(iw, ih));
    assert_eq!(sched.cycle, 12);
}

#[test]
fn schedule_matches_direct_simulation() {
    let (grid, blizzards) = example();
    let sched = build_schedule(&grid, &blizzards).unwrap();
    for t in 0..3 * sched.cycle {
        let positions = simulate(&blizzards, grid.rows, grid.cols, t);
        for r in 0..grid.rows {
            for c in 0..grid.cols {
                let expected = positions.contains(&(r, c));
                assert_eq!(sched.maps[t % sched.cycle][r][c], expected);
            }
        }
    }
}

#[test]
fn obstacle_positions_repeat_after_cycle() {
    let (grid, blizzards) = example();
    let sched = build_schedule(&grid, &blizzards).unwrap();
    for t in 0..sched.cycle {
        let now = simulate(&blizzards, grid.rows, grid.cols, t);
        let later = simulate(&blizzards, grid.rows, grid.cols, t + sched.cycle);
        assert_eq!(now, later);
    }
}

#[test]
fn search_is_optimal_on_small_grids() {
    let small = basin_from(&[
        "#.####",
        "#..>.#",
        "#.^..#",
        "#....#",
        "#....#",
        "####.#",
    ]);
    let (grid, blizzards) = small;
    let sched = build_schedule(&grid, &blizzards).unwrap();
    let bound = grid.rows * grid.cols * sched.cycle + 1;
    for start_time in 0..2 * sched.cycle {
        for end in [
            Coord { row: 5, col: 4 },
            Coord { row: 3, col: 2 },
            Coord { row: 1, col: 4 },
        ] {
            let start = Coord { row: 0, col: 1 };
            let expected = brute_shortest(
                &grid,
                &blizzards,
                (start.row, start.col),
                (end.row, end.col),
                start_time,
                bound,
            );
            let actual = shortest_arrival(&grid, &sched, start, end, start_time).ok();
            assert_eq!(actual, expected);
        }
    }
}

#[test]
fn chained_trip_rejects_stray_waypoints() {
    let (grid, blizzards) = example();
    let sched = build_schedule(&grid, &blizzards).unwrap();
    let start = Coord { row: 0, col: 1 };
    let outside = Coord { row: 9, col: 9 };
    let waypoints = vec![start, outside];
    let res = chained_trip(&grid, &sched, &waypoints, 0);
    assert_eq!(res, Err(SearchError::OutOfBoundsCoordinate));
}

#[test]
fn later_start_times_wrap_into_the_cycle() {
    let (grid, blizzards) = example();
    let sched = build_schedule(&grid, &blizzards).unwrap();
    let start = Coord { row: 0, col: 1 };
    let end = Coord { row: 5, col: 6 };
    let early = shortest_arrival(&grid, &sched, start, end, 3).unwrap();
    let late = shortest_arrival(&grid, &sched, start, end, 3 + sched.cycle).unwrap();
    assert_eq!(early, late);
}

#[test]
fn neighbours_lists_each_cell_once() {
    let corner = Coord { row: 0, col: 0 };
    let corner_n = corner.neighbours(6, 8);
    assert_eq!(corner_n.len(), 2);
    let middle = Coord { row: 3, col: 3 };
    let middle_n = middle.neighbours(6, 8);
    assert_eq!(middle_n.len(), 4);
    for i in 0..middle_n.len() {
        for j in 0..middle_n.len() {
            if i != j {
                assert!(middle_n[i] != middle_n[j]);
            }
        }
    }
}

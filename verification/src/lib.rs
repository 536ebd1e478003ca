//! Verified solutions to a collection of small daily puzzles.
//!
//! The centrepiece is a periodic time-expanded shortest-path search over a
//! bounded grid with moving obstacles: an obstacle schedule whose period is
//! the least common multiple of the interior dimensions (`schedule`), a
//! cost-monotonic frontier search over position × time-modulo-period
//! (`search`), and a composer that chains several legs of a journey
//! (`trip`).  The companion modules hold the smaller puzzle computations,
//! each verified against a contract.

pub mod grid;
pub mod numbers;
pub mod schedule;
pub mod search;
pub mod trip;
pub mod day02;
pub mod day03;
pub mod day04;
pub mod day06;
pub mod day07;
pub mod day08;
pub mod day09;
pub mod day16;
pub mod day17;
pub mod day20;
pub mod day25;

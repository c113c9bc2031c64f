//! Solvers for a collection of small text-input puzzles, centered on a
//! verified time-boxed resource-release maximization engine: a network of
//! nodes with flow rates is compressed to a distance graph over the
//! interesting nodes, searched for the best achievable release within a time
//! budget, and optionally combined over two disjoint agents.

pub mod combine;
pub mod compress;
pub mod day01;
pub mod day02;
pub mod day03;
pub mod day04;
pub mod day05;
pub mod day06;
pub mod day08;
pub mod day09;
pub mod day10;
pub mod day13;
pub mod day14;
pub mod day25;
pub mod distance;
pub mod graph;
pub mod laws;
pub mod search;
pub mod table;
pub mod util;


use vstd::prelude::*;

verus! {

/// Error for malformed puzzle input.
#[derive(Debug, PartialEq, Eq, Structural, Clone, Copy)]
pub enum InputError {
    BadInput,
}

} // verus!

//! Shared building blocks for puzzle solutions: directions, points, grids,
//! disjoint sets, compact keys, byte-level parsers and the puzzle
//! computations built on them.
use vstd::prelude::*;

pub mod aoc2022;
pub mod aoc2025;
pub mod bits;
pub mod builder;
pub mod convert;
pub mod direction;
pub mod disjoint_set;
pub mod geometry;
pub mod graph_search;
pub mod graph_utils;
pub mod grid;
pub mod grid_render;
pub mod grid_text;
pub mod iter_utils;
pub mod key;
pub mod lines;
pub mod linear_solver;
pub mod math;
pub mod numbers;
pub mod parsing;
pub mod regions;
pub mod rgb;
pub mod search;
pub mod sort;
pub mod text;
pub mod timing;
pub mod vec2;

verus! {

} // verus!

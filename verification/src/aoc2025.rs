//! Puzzle computations of the 2025 calendar.
pub mod day1;
pub mod day3;
pub mod day4;
pub mod day5;
pub mod day6;
pub mod day7;
pub mod day8;
pub mod day9;

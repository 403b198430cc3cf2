//! Puzzle computations of the 2022 calendar.
pub mod day1;
pub mod day10;
pub mod day2;
pub mod day3;
pub mod day4;
pub mod day5;
pub mod day6;
pub mod day7;
pub mod day8;
pub mod day9;
pub mod grid;
pub mod day12;
pub mod search;

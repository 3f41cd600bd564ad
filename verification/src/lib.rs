//! Solvers for a collection of small daily text puzzles.
//!
//! Each `dayNN` module holds the pure logic of one puzzle: turning a plain
//! text description into values and computing the puzzle's numeric answers.
//! Every function carries a contract relating its result to a mathematical
//! model of the input; reading the input file and printing the answers is
//! left to the surrounding binary.

pub mod day01;
pub mod day02;
pub mod day03;
pub mod day04;
pub mod day05;
pub mod day06;
pub mod day07;
pub mod day08;
pub mod day09;
pub mod day10;
pub mod day11;
pub mod day12;
pub mod text;

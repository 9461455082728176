//! Puzzle solvers built around a dense two-dimensional grid and a segment
//! rasterizer, with each solver's arithmetic stated as a contract.

pub mod day01;
pub mod day02;
pub mod day03;
pub mod day04;
pub mod day05;
pub mod day06;
pub mod day07;
pub mod helpers;

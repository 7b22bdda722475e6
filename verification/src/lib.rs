//! Solvers for a collection of small text puzzles, with machine-checked contracts.
//!
//! Each puzzle lives in a module of its own: it reads its input from a string,
//! builds its own data model and computes one number from it. The three larger
//! ones are the pipe maze (`day10`, with its law in `day10_loop`), the network
//! walker (`day8`) and the card hands (`day7`).
//!
//! Functions that need well-formed input say so in their `requires`; beside
//! each of them stands a function without such a demand, named `try_...` or
//! `parse_...`, that tests the input and says in its result whether it was
//! well-formed.
pub mod day1;
pub mod day10;
pub mod day10_loop;
pub mod day11;
pub mod day2;
pub mod day3;
pub mod day4;
pub mod day5;
pub mod day6;
pub mod day7;
pub mod day8;
pub mod day9;
pub mod text;

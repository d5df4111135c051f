//! Reaching a target number from dice.
//!
//! Three or four dice are thrown. Each die gives its face, or its face with
//! up to seven zeros appended, and the numbers of all dice are joined by the
//! four basic operations into one computation. The library answers two
//! questions: which numbers of a range the dice reach ([`engine::probe`]),
//! and which computations give one number ([`engine::enumerate`]). On top of
//! the first stands the gap analysis ([`gaps`]): for each way to pick the
//! dice, the widest stretch of a range that the dice miss.
//!
//! The search is staged ([`stages`]): it builds a map of the reachable
//! numbers for every single die, then for every pair, then for every die
//! with a pair of others, and joins in its last round the maps whose dice
//! together are all dice. [`reach`] states what is reached over computations
//! and proves that the staged search finds exactly that.

pub mod arith;
pub mod collect;
pub mod combine;
pub mod engine;
pub mod fastgame;
pub mod game;
pub mod gaps;
pub mod laws;
pub mod order;
pub mod output;
pub mod reach;
pub mod solver;
pub mod stages;

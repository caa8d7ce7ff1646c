//! A community typing-speed scoreboard: a registry of keyboard layouts, one current
//! score per user and layout, and a leaderboard that is filtered, ranked by speed
//! and split into pages.
//!
//! - `store`: layouts and scores, registration and submission;
//! - `filter`: the criteria of a query and how raw input becomes them;
//! - `rank`: the join of scores to layouts, filtered and ranked;
//! - `pages`: ranked rows in pages of ten numbered lines;
//! - `suggest`: suggestions for partly typed layout names and focus categories.

use vstd::prelude::*;

pub mod filter;
pub mod pages;
pub mod rank;
pub mod store;
pub mod suggest;

verus! {

} // verus!

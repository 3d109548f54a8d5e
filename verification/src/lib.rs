//! A verified Monte Carlo tree search engine for tic-tac-toe.
//!
//! The board and the player to move are packed into one integer code
//! (`game`); search statistics live in a transposition table shared by
//! every simulation (`mchs`, `mchs_net`); exploration scores are
//! computed in fixed-point arithmetic (`fixed`).

use vstd::prelude::*;

pub mod fixed;
pub mod game;
pub mod mchs;
pub mod mchs_net;
pub mod rng;

verus! {

/// One unit of game value in fixed-point representation: evaluations,
/// accumulated values and selection scores are scaled by this factor.
pub const VALUE_ONE: i64 = 65536;

} // verus!

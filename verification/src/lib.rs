//! Move-selection engine for a two-player, zero-sum, perfect-information
//! board game.
//!
//! The engine searches an explicit game graph ([`game::Game`]) for the best
//! available move under a fixed depth bound.  Three strategies are provided:
//! a one-ply [`strategy::greedy::Greedy`] baseline, an exhaustive
//! [`strategy::minmax::MinMax`] search parallelised at every recursion level,
//! and [`strategy::alphabeta::AlphaBeta`], which prunes below the root and is
//! parallelised over the root move list only.  Anytime drivers run a strategy
//! at increasing depths and publish each completed answer into a last-write-wins
//! [`register::MoveRegister`], so a supervisor can harvest the best move found
//! so far at its deadline.

pub mod game;
pub mod register;
pub mod strategy;

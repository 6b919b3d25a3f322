//! Game-tree search for two-player zero-sum games: iterative-deepening
//! negamax with alpha-beta pruning over a transposition table, and a
//! parallel variant that searches the eldest child before its siblings.
//!
//! The searches are held to a mathematical account of what they compute
//! (`strategies::tree`), and that account to the full search without windows
//! or table (`strategies::pruning`, `strategies::solving`). A small game
//! (`nim`) shows the whole at work.

pub mod interface;
pub mod nim;
pub mod strategies;

pub use interface::{Evaluation, Evaluator, Game, Winner, BEST_EVAL, WORST_EVAL};
pub use strategies::iterative::{IterativeOptions, IterativeSearch, Replacement};
pub use strategies::ybw::{ParallelYbw, YbwOptions};

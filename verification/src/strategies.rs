//! Search strategies, the tables they share, and what is proved of them.

pub mod clock;
pub mod iterative;
pub mod pruning;
pub mod solving;
pub mod table;
pub mod tree;
pub mod util;
pub mod ybw;

//! A leaderboard kept as a height-balanced search tree keyed by score.
pub mod avl;

pub use avl::{AVLNode, Leaderboard, LeaderboardIter};

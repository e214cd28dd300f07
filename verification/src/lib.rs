//! A verified Monte Carlo Tree Search engine using the UCT (UCB1 applied to
//! trees) selection policy, for sequential two-player zero-sum
//! perfect-information games.
//!
//! The engine keeps integer statistics: visit counters and accumulated wins
//! in half-points (a loss counts 0, a draw 1, a win 2), and computes the
//! UCB1 selection priority in fixed-point arithmetic.

pub mod fixed;
pub mod engine;
pub mod game;
pub mod line;
pub mod tree;

pub use fixed::DEFAULT_BIAS;
pub use fixed::SCALE;
pub use engine::Uct;
pub use game::Game;
pub use line::LineGame;
pub use game::Status;

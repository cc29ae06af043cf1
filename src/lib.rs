//! Tournament equity (ICM) building blocks: the active-player bitset of the
//! exact subset solver, the choice of strategy, the canonical form of cached
//! equity pairs, and the finishing order and payout tally of the estimator.

pub mod cache;
pub mod exact;
pub mod players;
pub mod ranking;
pub mod stacks;
pub mod strategy;
pub mod workers;

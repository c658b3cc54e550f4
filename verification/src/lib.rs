//! A scoring engine for the Yams dice game.
//!
//! A round rolls five dice; the engine decides which scoring combination the
//! hand is awarded and how many points it is worth. Across a game, each
//! combination may be awarded at most once: the game scorer tracks which
//! combinations are still available and accumulates the total.

pub mod hand;
pub mod laws;
pub mod matcher;
pub mod scorer;

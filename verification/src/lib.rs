//! A recurring-round lottery engine.
//!
//! Participants buy tickets for a fixed price, an operator triggers a draw,
//! winners are determined by how many of their chosen numbers match a randomly
//! drawn set, and the collected pool is split across match-count tiers and
//! disbursed proportionally.
//!
//! The engine is a value-level state machine: persistence, value transfer,
//! authorization and event delivery are external collaborators that callers
//! drive around it.

pub mod assoc;
pub mod rng;
pub mod draw;
pub mod classify;
pub mod prize;
pub mod engine;

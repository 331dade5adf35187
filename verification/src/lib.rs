//! Linear version chains and migration planning.
//!
//! A release declares how to carry persisted state forward from its
//! predecessor and how to carry it back. This crate collects such releases
//! into one unbroken chain, plans the ordered list of transforms between any
//! two releases, and sequences their execution.

pub mod chain;
pub mod descriptor;
pub mod error;
pub mod executor;
pub mod laws;
pub mod plan;
pub mod planner;
pub mod registry;
pub mod step;
pub mod v0_2_13;
pub mod v0_2_16;

//! Happy-eyeballs connection racing.
//!
//! Several connection attempts against one endpoint are started one delay
//! unit apart and raced under a single deadline. The first attempt that
//! connects wins; the others are abandoned. This crate holds the decisions of
//! that race as a state machine: a driver feeds it what the clock and the
//! transport report, and carries out the actions it answers with.

pub mod error;
pub mod laws;
pub mod model;
pub mod race;
pub mod schedule;

//! Watches directories and decides when their configured commands run.
//!
//! `debounce` coalesces bursts of filesystem events into single triggers,
//! `poll` detects changes by comparing entry counts, and `registry` keeps the
//! configured entries with the handles of their running watches.

pub mod debounce;
pub mod poll;
pub mod registry;

//! A fixed-priority preemptive task dispatcher for single-core
//! microcontrollers, with shared resources arbitrated by priority ceilings
//! and deferred spawns driven by a wrapping tick counter.
pub mod clock;
pub mod dispatch;
pub mod table;

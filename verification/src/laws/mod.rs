//! What the operations are for, in plain terms.
//!
//! The contracts of the library speak of spec functions. The laws of these
//! modules say what those functions mean, by bytes, numbers of nanoseconds
//! and membership alone. Those of [`calls`] and [`operations`] are about the
//! functions themselves: if a call returned this, then that holds.
pub mod aggregation;
pub mod calls;
pub mod detection;
pub mod lifetimes;
pub mod merging;
pub mod messages;
pub mod operations;
pub mod pipeline;
pub mod tables;
pub mod views;

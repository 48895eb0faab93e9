//! Core of a single-user work-time tracker.
//!
//! The library reconstructs tracked time intervals from an append-only
//! start/stop event log, decides which calendar days count as working days
//! (weekends, public holidays, vacations), computes fractional business
//! hours between two instants, buckets those hours by calendar month, and
//! derives the currently active task.  All instants are UTC timestamps in
//! nanoseconds; all worked durations are whole seconds.

pub mod dates;
pub mod calendar;
pub mod hours;
pub mod ranges;
pub mod months;
pub mod clock;
pub mod tracker;
pub mod tasks;

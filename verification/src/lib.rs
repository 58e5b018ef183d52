//! Attendance aggregation engine for a duty-status tracker.
//!
//! The engine accumulates periodic on-duty snapshots into a sparse
//! person-by-timestamp table, derives per-person attendance ratios
//! (overall and weekend-only), and defines the columnar text format
//! in which the accumulated table is persisted.

pub mod calendar;
pub mod cli;
pub mod codec;
pub mod config;
pub mod duty;
pub mod summary;
pub mod table;

pub use calendar::Timestamp;
pub use duty::DutyError;
pub use duty::Status;
pub use duty::UserStatus;

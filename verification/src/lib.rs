//! Core of a personal time tracker: an append-only log of intervals, each
//! tagged with a project name, is aggregated into per-project totals
//! (all-time, per day, or a rolling seven-day grid) and rendered as a
//! quarter-hour timeline of one day.
//!
//! Instants are plain `i64` seconds on a single local timeline; calendar
//! days are `i64` day numbers on that timeline.  The surrounding program
//! converts real wall-clock values to and from this model.

pub mod dates;
pub mod entry;
pub mod render;
pub mod rows;
pub mod summary;
pub mod table;
pub mod text;
pub mod viz;

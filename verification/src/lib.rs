//! Scheduling kernel: meeting-time parsing, pairwise conflict detection, per-day minute
//! bitmaps, prerequisite closure and the search for conflict-free schedule candidates.

pub mod text;
pub mod weekly_bitmap;
pub mod conflicts;
pub mod prereqs;
pub mod search;
pub mod schedule_stats;
pub mod optimize;
pub mod query;
pub mod service;

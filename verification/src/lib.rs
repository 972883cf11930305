//! A time-interval algebra: half-open periods over calendar instants,
//! decomposition of periods into calendar-aligned sub-periods, overlap
//! tests, and merging of time-stamped values into a minimal timeline.

pub mod instant;
pub mod periods;
pub mod timeline;
